//! Sparse linear rows: rational coefficients indexed by variable, kept in
//! increasing order of variable.
use crate::fraction::{lemma_add_eqv, lemma_eqv_refl, lemma_eqv_trans, lemma_fraction_fits, lemma_ops_wf, mag, ArithOverflow, Fraction, Ratio, SMALL};
use vstd::prelude::*;

verus! {

broadcast use lemma_fraction_fits;

/// The variables of `s` strictly increase.
pub open spec fn sorted_vars(s: Seq<(usize, Fraction)>) -> bool {
    forall|i: int, j: int| 0 <= i < j < s.len() ==> s[i].0 < s[j].0
}

/// `v` is one of the variables of `s`.
pub open spec fn has_var(s: Seq<(usize, Fraction)>, v: usize) -> bool {
    exists|i: int| 0 <= i < s.len() && s[i].0 == v
}

/// The map from each variable of `s` to its coefficient.
pub open spec fn coeff_map(s: Seq<(usize, Fraction)>) -> Map<usize, Fraction> {
    Map::new(
        |v: usize| has_var(s, v),
        |v: usize| s[choose|i: int| 0 <= i < s.len() && s[i].0 == v].1,
    )
}

/// In a sorted sequence, the entry at `i` gives the coefficient of its variable.
pub proof fn lemma_coeff_at(s: Seq<(usize, Fraction)>, i: int)
    requires
        sorted_vars(s),
        0 <= i < s.len(),
    ensures
        coeff_map(s).contains_key(s[i].0),
        coeff_map(s)[s[i].0] == s[i].1,
{
    assert(has_var(s, s[i].0));
    let j = choose|j: int| 0 <= j < s.len() && s[j].0 == s[i].0;
    if j < i {
        assert(s[j].0 < s[i].0);
    } else if j > i {
        assert(s[i].0 < s[j].0);
    }
}

/// A sorted sequence whose entries agree with `m`, and that has every key of
/// `m`, has `m` as its coefficient map.
pub proof fn lemma_coeff_map_eq(t: Seq<(usize, Fraction)>, m: Map<usize, Fraction>)
    requires
        sorted_vars(t),
        forall|i: int| #![trigger t[i]] 0 <= i < t.len() ==> m.contains_key(t[i].0) && m[t[i].0] == t[i].1,
        forall|v: usize| m.contains_key(v) ==> has_var(t, v),
    ensures
        coeff_map(t) == m,
{
    assert forall|v: usize| coeff_map(t).contains_key(v) <==> m.contains_key(v) by {
        if has_var(t, v) {
            let i = choose|i: int| 0 <= i < t.len() && t[i].0 == v;
            assert(m.contains_key(t[i].0));
        }
    }
    assert forall|v: usize| m.contains_key(v) implies coeff_map(t)[v] == m[v] by {
        let i = choose|i: int| 0 <= i < t.len() && t[i].0 == v;
        lemma_coeff_at(t, i);
    }
    assert(coeff_map(t) =~= m);
}

/// Appending an entry above every variable of a sorted sequence.
pub proof fn lemma_coeff_push(s: Seq<(usize, Fraction)>, x: (usize, Fraction))
    requires
        sorted_vars(s),
        forall|k: int| 0 <= k < s.len() ==> s[k].0 < x.0,
    ensures
        sorted_vars(s.push(x)),
        coeff_map(s.push(x)) == coeff_map(s).insert(x.0, x.1),
{
    let t = s.push(x);
    let m = coeff_map(s).insert(x.0, x.1);
    assert forall|i: int| #![trigger t[i]] 0 <= i < t.len() implies m.contains_key(t[i].0) && m[t[i].0] == t[i].1 by {
        if i < s.len() {
            lemma_coeff_at(s, i);
        }
    }
    assert forall|v: usize| m.contains_key(v) implies has_var(t, v) by {
        if v == x.0 {
            assert(t[s.len() as int].0 == v);
        } else {
            let i = choose|i: int| 0 <= i < s.len() && s[i].0 == v;
            assert(t[i].0 == v);
        }
    }
    lemma_coeff_map_eq(t, m);
}

/// `s` restricted to its first `i` entries has exactly their variables.
pub proof fn lemma_has_var_take(s: Seq<(usize, Fraction)>, i: int, v: usize)
    requires
        0 <= i < s.len(),
    ensures
        has_var(s.take(i + 1), v) <==> (has_var(s.take(i), v) || s[i].0 == v),
{
    let t1 = s.take(i + 1);
    let t0 = s.take(i);
    if has_var(t1, v) {
        let k = choose|k: int| 0 <= k < t1.len() && t1[k].0 == v;
        if k < i {
            assert(t0[k].0 == v);
        }
    }
    if has_var(t0, v) {
        let k = choose|k: int| 0 <= k < t0.len() && t0[k].0 == v;
        assert(t1[k].0 == v);
    }
    if s[i].0 == v {
        assert(s.take(i + 1)[i].0 == v);
    }
}

/// Whether `v` has an entry in `a + b·s`: entries of `a` alone stay, the
/// others stay when their coefficient is not zero.
pub open spec fn merged_keeps(a: Map<usize, Fraction>, b: Map<usize, Fraction>, s: Ratio, v: usize) -> bool {
    if a.contains_key(v) && b.contains_key(v) {
        a[v]@.add(b[v]@.mul(s)).num != 0
    } else if a.contains_key(v) {
        true
    } else if b.contains_key(v) {
        b[v]@.mul(s).num != 0
    } else {
        false
    }
}

/// The coefficient of `v` in `a + b·s`.
pub open spec fn merged_value(a: Map<usize, Fraction>, b: Map<usize, Fraction>, s: Ratio, v: usize) -> Ratio {
    if a.contains_key(v) && b.contains_key(v) {
        a[v]@.add(b[v]@.mul(s))
    } else if a.contains_key(v) {
        a[v]@
    } else {
        b[v]@.mul(s)
    }
}

/// `r` holds the entry of `v` in `a + b·s`.
pub open spec fn merged_entry(
    a: Map<usize, Fraction>,
    b: Map<usize, Fraction>,
    s: Ratio,
    r: Map<usize, Fraction>,
    v: usize,
) -> bool {
    &&& r.contains_key(v) == merged_keeps(a, b, s, v)
    &&& r.contains_key(v) ==> r[v]@.eqv(merged_value(a, b, s, v))
    &&& (r.contains_key(v) && a.contains_key(v) && !b.contains_key(v)) ==> r[v] == a[v]
}

/// Every coefficient of `m` has parts of magnitude at most [`SMALL`].
pub open spec fn all_small(m: Map<usize, Fraction>) -> bool {
    forall|v: usize| m.contains_key(v) ==> (#[trigger] m[v])@.small()
}

proof fn lemma_small_mul(x: Ratio, y: Ratio)
    requires
        x.small(),
        y.small(),
        x.fits(),
        y.fits(),
    ensures
        x.mul(y).fits(),
        mag(x.mul(y).num) <= SMALL * SMALL,
        x.mul(y).den <= SMALL * SMALL,
{
    assert(mag(x.num * y.num) <= SMALL * SMALL) by (nonlinear_arith)
        requires
            mag(x.num) <= SMALL,
            mag(y.num) <= SMALL,
    ;
    assert(x.den * y.den <= SMALL * SMALL && x.den * y.den >= 1) by (nonlinear_arith)
        requires
            1 <= x.den <= SMALL,
            1 <= y.den <= SMALL,
    ;
}

proof fn lemma_small_add(x: Ratio, y: Ratio)
    requires
        x.small(),
        x.fits(),
        mag(y.num) <= SMALL * SMALL,
        1 <= y.den <= SMALL * SMALL,
    ensures
        x.add(y).fits(),
{
    assert(mag(x.num * y.den) <= SMALL * (SMALL * SMALL)) by (nonlinear_arith)
        requires
            mag(x.num) <= SMALL,
            1 <= y.den <= SMALL * SMALL,
    ;
    assert(mag(y.num * x.den) <= (SMALL * SMALL) * SMALL) by (nonlinear_arith)
        requires
            mag(y.num) <= SMALL * SMALL,
            1 <= x.den <= SMALL,
    ;
    assert(1 <= x.den * y.den <= SMALL * (SMALL * SMALL)) by (nonlinear_arith)
        requires
            1 <= x.den <= SMALL,
            1 <= y.den <= SMALL * SMALL,
    ;
}

/// Fractions of the same value are zero together.
pub proof fn lemma_eqv_zero(f: Ratio, g: Ratio)
    requires
        f.eqv(g),
        f.den > 0,
        g.den > 0,
    ensures
        (f.num == 0) <==> (g.num == 0),
{
    if f.num == 0 {
        assert(g.num * f.den == 0);
        assert(g.num == 0) by (nonlinear_arith)
            requires
                g.num * f.den == 0,
                f.den > 0,
        ;
    }
    if g.num == 0 {
        assert(f.num * g.den == 0);
        assert(f.num == 0) by (nonlinear_arith)
            requires
                f.num * g.den == 0,
                g.den > 0,
        ;
    }
}

/// A linear combination of variables with rational coefficients.
#[derive(Debug, PartialEq, Eq, Hash)]
pub struct SparseRow {
    terms: Vec<(usize, Fraction)>,
}

impl View for SparseRow {
    type V = Map<usize, Fraction>;

    closed spec fn view(&self) -> Map<usize, Fraction> {
        coeff_map(self.terms@)
    }
}

impl SparseRow {
    /// The entries in increasing order of variable.
    pub closed spec fn seq(self) -> Seq<(usize, Fraction)> {
        self.terms@
    }

    /// The variables strictly increase.
    pub closed spec fn wf(self) -> bool {
        sorted_vars(self.terms@)
    }

    /// The entries of a row are its coefficient map in increasing order.
    pub proof fn lemma_entries(self)
        requires
            self.wf(),
        ensures
            sorted_vars(self.seq()),
            self@ == coeff_map(self.seq()),
    {
    }

    /// The empty row.
    pub fn new() -> (r: SparseRow)
        ensures
            r.wf(),
            r@ == Map::<usize, Fraction>::empty(),
    {
        let r = SparseRow { terms: Vec::new() };
        proof {
            assert(coeff_map(r.terms@) =~= Map::<usize, Fraction>::empty());
        }
        r
    }

    /// A copy of the row.
    pub fn dup(&self) -> (r: SparseRow)
        requires
            self.wf(),
        ensures
            r.wf(),
            r@ == self@,
            r.seq() == self.seq(),
    {
        let mut out: Vec<(usize, Fraction)> = Vec::new();
        let mut i: usize = 0;
        while i < self.terms.len()
            invariant
                i <= self.terms.len(),
                out@ == self.terms@.take(i as int),
            decreases self.terms.len() - i,
        {
            out.push(self.terms[i]);
            proof {
                assert(self.terms@.take(i + 1) =~= self.terms@.take(i as int).push(self.terms@[i as int]));
            }
            i += 1;
        }
        proof {
            assert(self.terms@.take(self.terms.len() as int) =~= self.terms@);
        }
        SparseRow { terms: out }
    }

    /// Whether the row has no entry.
    pub fn is_empty(&self) -> (r: bool)
        ensures
            r <==> self@ == Map::<usize, Fraction>::empty(),
    {
        proof {
            if self.terms@.len() > 0 {
                assert(has_var(self.terms@, self.terms@[0].0));
                assert(self@.contains_key(self.terms@[0].0));
            } else {
                assert(self@ =~= Map::<usize, Fraction>::empty());
            }
        }
        self.terms.len() == 0
    }

    /// The number of entries.
    pub fn len(&self) -> (r: usize)
        ensures
            r == self.seq().len(),
    {
        self.terms.len()
    }

    /// The entries in increasing order of variable.
    pub fn iter(&self) -> (r: &[(usize, Fraction)])
        ensures
            r@ == self.seq(),
    {
        self.terms.as_slice()
    }

    /// The variables of the row, increasing.
    pub fn keys(&self) -> (r: Vec<usize>)
        requires
            self.wf(),
        ensures
            r.len() == self.seq().len(),
            forall|i: int| 0 <= i < r.len() ==> r@[i] == #[trigger] self.seq()[i].0,
            forall|v: usize| r@.contains(v) <==> self@.contains_key(v),
    {
        let mut out: Vec<usize> = Vec::new();
        let mut i: usize = 0;
        while i < self.terms.len()
            invariant
                i <= self.terms.len(),
                out.len() == i,
                forall|k: int| 0 <= k < i ==> out@[k] == #[trigger] self.terms@[k].0,
            decreases self.terms.len() - i,
        {
            out.push(self.terms[i].0);
            i += 1;
        }
        proof {
            assert forall|v: usize| out@.contains(v) <==> self@.contains_key(v) by {
                if out@.contains(v) {
                    let k = choose|k: int| 0 <= k < out@.len() && out@[k] == v;
                    assert(self.terms@[k].0 == v);
                }
                if self@.contains_key(v) {
                    let k = choose|k: int| 0 <= k < self.terms@.len() && self.terms@[k].0 == v;
                    assert(out@[k] == v);
                }
            }
        }
        out
    }

    /// Where `var` is, or where it would be inserted.
    fn position(&self, var: usize) -> (r: Result<usize, usize>)
        requires
            self.wf(),
        ensures
            match r {
                Ok(i) => i < self.terms@.len() && self.terms@[i as int].0 == var,
                Err(i) => {
                    &&& i <= self.terms@.len()
                    &&& forall|k: int| 0 <= k < i ==> self.terms@[k].0 < var
                    &&& forall|k: int| i <= k < self.terms@.len() ==> self.terms@[k].0 > var
                },
            },
    {
        let mut lo: usize = 0;
        let mut hi: usize = self.terms.len();
        while lo < hi
            invariant
                lo <= hi <= self.terms@.len(),
                sorted_vars(self.terms@),
                forall|k: int| 0 <= k < lo ==> self.terms@[k].0 < var,
                forall|k: int| hi <= k < self.terms@.len() ==> self.terms@[k].0 > var,
            decreases hi - lo,
        {
            let mid = lo + (hi - lo) / 2;
            let v = self.terms[mid].0;
            if v == var {
                return Ok(mid);
            } else if v < var {
                lo = mid + 1;
            } else {
                hi = mid;
            }
        }
        Err(lo)
    }

    /// The coefficient of `var`, if the row has one.
    pub fn get(&self, var: &usize) -> (r: Option<&Fraction>)
        requires
            self.wf(),
        ensures
            match r {
                Some(c) => self@.contains_key(*var) && self@[*var] == *c,
                None => !self@.contains_key(*var),
            },
    {
        match self.position(*var) {
            Ok(i) => {
                proof {
                    lemma_coeff_at(self.terms@, i as int);
                }
                Some(&self.terms[i].1)
            },
            Err(_) => {
                proof {
                    if has_var(self.terms@, *var) {
                        let k = choose|k: int| 0 <= k < self.terms@.len() && self.terms@[k].0 == *var;
                        assert(self.terms@[k].0 != *var);
                    }
                }
                None
            },
        }
    }

    /// Sets the coefficient of `var` to `coeff`.
    pub fn insert(&mut self, var: usize, coeff: Fraction)
        requires
            old(self).wf(),
        ensures
            final(self).wf(),
            final(self)@ == old(self)@.insert(var, coeff),
    {
        let ghost s = self.terms@;
        let ghost m = coeff_map(s).insert(var, coeff);
        match self.position(var) {
            Ok(i) => {
                self.terms.set(i, (var, coeff));
                proof {
                    let t = self.terms@;
                    assert(sorted_vars(t));
                    assert forall|k: int| #![trigger t[k]] 0 <= k < t.len() implies m.contains_key(t[k].0) && m[t[k].0] == t[k].1 by {
                        if k != i {
                            lemma_coeff_at(s, k);
                            assert(s[k].0 != var);
                        }
                    }
                    assert forall|v: usize| m.contains_key(v) implies has_var(t, v) by {
                        if v == var {
                            assert(t[i as int].0 == v);
                        } else {
                            let k = choose|k: int| 0 <= k < s.len() && s[k].0 == v;
                            assert(t[k].0 == v);
                        }
                    }
                    lemma_coeff_map_eq(t, m);
                }
            },
            Err(i) => {
                self.terms.insert(i, (var, coeff));
                proof {
                    let t = self.terms@;
                    assert(t == s.insert(i as int, (var, coeff)));
                    assert forall|a: int, b: int| 0 <= a < b < t.len() implies t[a].0 < t[b].0 by {
                        if b < i {
                        } else if b == i {
                        } else if a < i {
                            assert(t[b] == s[b - 1]);
                        } else if a == i {
                            assert(t[b] == s[b - 1]);
                        } else {
                            assert(t[a] == s[a - 1]);
                            assert(t[b] == s[b - 1]);
                        }
                    }
                    assert forall|k: int| #![trigger t[k]] 0 <= k < t.len() implies m.contains_key(t[k].0) && m[t[k].0] == t[k].1 by {
                        if k < i {
                            lemma_coeff_at(s, k);
                        } else if k > i {
                            assert(t[k] == s[k - 1]);
                            lemma_coeff_at(s, k - 1);
                        }
                    }
                    assert forall|v: usize| m.contains_key(v) implies has_var(t, v) by {
                        if v == var {
                            assert(t[i as int].0 == v);
                        } else {
                            let k = choose|k: int| 0 <= k < s.len() && s[k].0 == v;
                            if k < i {
                                assert(t[k].0 == v);
                            } else {
                                assert(t[k + 1].0 == v);
                            }
                        }
                    }
                    lemma_coeff_map_eq(t, m);
                }
            },
        }
    }

    /// Removes the entry of `var`, returning its coefficient.
    pub fn remove(&mut self, var: &usize) -> (r: Option<Fraction>)
        requires
            old(self).wf(),
        ensures
            final(self).wf(),
            final(self)@ == old(self)@.remove(*var),
            r == (if old(self)@.contains_key(*var) {
                Some(old(self)@[*var])
            } else {
                None::<Fraction>
            }),
    {
        let ghost s = self.terms@;
        let ghost m = coeff_map(s).remove(*var);
        match self.position(*var) {
            Ok(i) => {
                proof {
                    lemma_coeff_at(s, i as int);
                }
                let (_, c) = self.terms.remove(i);
                proof {
                    let t = self.terms@;
                    assert(t == s.remove(i as int));
                    assert forall|a: int, b: int| 0 <= a < b < t.len() implies t[a].0 < t[b].0 by {
                        if a < i && b < i {
                        } else if a < i {
                            assert(t[b] == s[b + 1]);
                        } else {
                            assert(t[a] == s[a + 1]);
                            assert(t[b] == s[b + 1]);
                        }
                    }
                    assert forall|k: int| #![trigger t[k]] 0 <= k < t.len() implies m.contains_key(t[k].0) && m[t[k].0] == t[k].1 by {
                        if k < i {
                            lemma_coeff_at(s, k);
                        } else {
                            assert(t[k] == s[k + 1]);
                            lemma_coeff_at(s, k + 1);
                        }
                    }
                    assert forall|v: usize| m.contains_key(v) implies has_var(t, v) by {
                        let k = choose|k: int| 0 <= k < s.len() && s[k].0 == v;
                        assert(k != i);
                        if k < i {
                            assert(t[k].0 == v);
                        } else {
                            assert(t[k - 1].0 == v);
                        }
                    }
                    lemma_coeff_map_eq(t, m);
                }
                Some(c)
            },
            Err(_) => {
                proof {
                    if has_var(s, *var) {
                        let k = choose|k: int| 0 <= k < s.len() && s[k].0 == *var;
                        assert(s[k].0 != *var);
                    }
                    assert(coeff_map(s).remove(*var) =~= coeff_map(s));
                }
                None
            },
        }
    }

    /// Drops the entries whose coefficient is zero.
    pub fn retain_nonzero(&mut self)
        requires
            old(self).wf(),
        ensures
            final(self).wf(),
            forall|v: usize| #[trigger]
                final(self)@.contains_key(v) <==> (old(self)@.contains_key(v) && old(self)@[v]@.num != 0),
            forall|v: usize| #[trigger] final(self)@.contains_key(v) ==> final(self)@[v] == old(self)@[v],
    {
        let ghost s = self.terms@;
        let mut out: Vec<(usize, Fraction)> = Vec::new();
        let mut i: usize = 0;
        while i < self.terms.len()
            invariant
                i <= s.len(),
                self.terms@ == s,
                sorted_vars(s),
                sorted_vars(out@),
                forall|k: int| 0 <= k < out@.len() ==> (i < s.len() ==> out@[k].0 < s[i as int].0),
                forall|v: usize| #[trigger]
                    coeff_map(out@).contains_key(v) <==> (has_var(s.take(i as int), v) && coeff_map(s)[v]@.num != 0),
                forall|v: usize| #[trigger] coeff_map(out@).contains_key(v) ==> coeff_map(out@)[v] == coeff_map(s)[v],
            decreases s.len() - i,
        {
            let e = self.terms[i];
            let ghost before = out@;
            proof {
                lemma_coeff_at(s, i as int);
                assert forall|v: usize| has_var(s.take(i + 1), v) <==> (has_var(s.take(i as int), v) || s[i as int].0 == v) by {
                    lemma_has_var_take(s, i as int, v);
                }
            }
            if !e.1.is_zero() {
                out.push(e);
                proof {
                    lemma_coeff_push(before, e);
                }
            }
            proof {
                if i + 1 < s.len() {
                    assert forall|k: int| 0 <= k < out@.len() implies out@[k].0 < s[i + 1].0 by {
                        assert(s[i as int].0 < s[i + 1].0);
                    }
                }
                assert forall|v: usize| #[trigger] coeff_map(out@).contains_key(v) <==> (has_var(s.take(i + 1), v) && coeff_map(s)[v]@.num != 0) by {
                    if v == e.0 && !coeff_map(before).contains_key(v) && e.1@.num == 0 {
                        assert(!coeff_map(out@).contains_key(v));
                    }
                    let t0 = s.take(i as int);
                    if has_var(t0, v) {
                        let k = choose|k: int| 0 <= k < t0.len() && t0[k].0 == v;
                        assert(s[k].0 < s[i as int].0);
                    }
                    if coeff_map(before).contains_key(v) {
                        let k = choose|k: int| 0 <= k < before.len() && before[k].0 == v;
                        assert(before[k].0 < s[i as int].0);
                    }
                }
            }
            i += 1;
        }
        proof {
            assert(s.take(s.len() as int) =~= s);
            assert forall|v: usize| has_var(s, v) <==> coeff_map(s).contains_key(v) by {
            }
        }
        self.terms = out;
    }

    /// Adds `delta` to the coefficient of `var` (a missing coefficient counts as
    /// zero). A zero `delta` leaves the row as it is.
    pub fn add_coeff(&mut self, var: usize, delta: &Fraction) -> (r: Result<(), ArithOverflow>)
        requires
            old(self).wf(),
        ensures
            final(self).wf(),
            r is Err ==> final(self)@ == old(self)@,
            r is Ok && delta@.num == 0 ==> final(self)@ == old(self)@,
            r is Ok && delta@.num != 0 && !old(self)@.contains_key(var) ==> final(self)@ == old(self)@.insert(var, *delta),
            r is Ok && delta@.num != 0 && old(self)@.contains_key(var) ==> {
                &&& final(self)@.dom() == old(self)@.dom()
                &&& forall|v: usize| v != var && #[trigger] old(self)@.contains_key(v) ==> final(self)@[v] == old(self)@[v]
                &&& final(self)@[var]@.eqv(old(self)@[var]@.add(delta@))
            },
            (delta@.small() && (old(self)@.contains_key(var) ==> old(self)@[var]@.small())) ==> r is Ok,
            !old(self)@.contains_key(var) ==> r is Ok,
    {
        if delta.is_zero() {
            return Ok(());
        }
        let ghost m0 = self@;
        match self.position(var) {
            Ok(i) => {
                proof {
                    lemma_coeff_at(self.terms@, i as int);
                    if delta@.small() && self.terms@[i as int].1@.small() {
                        lemma_small_mul(delta@, Ratio::of_int(1));
                        assert(mag(delta@.num) <= SMALL * SMALL);
                        lemma_small_add(self.terms@[i as int].1@, delta@);
                    }
                }
                let c = self.terms[i].1;
                match c.checked_add(delta) {
                    Some(n) => {
                        self.insert(var, n);
                        proof {
                            assert(final(self)@ == m0.insert(var, n));
                            assert(m0.insert(var, n).dom() =~= m0.dom());
                        }
                        Ok(())
                    },
                    None => Err(ArithOverflow),
                }
            },
            Err(_) => {
                proof {
                    if has_var(self.terms@, var) {
                        let k = choose|k: int| 0 <= k < self.terms@.len() && self.terms@[k].0 == var;
                        assert(self.terms@[k].0 != var);
                    }
                }
                self.insert(var, *delta);
                Ok(())
            },
        }
    }

    /// Multiplies every coefficient by `c`.
    pub fn scale(&mut self, c: &Fraction) -> (r: Result<(), ArithOverflow>)
        requires
            old(self).wf(),
        ensures
            final(self).wf(),
            r is Err ==> final(self)@ == old(self)@,
            r is Ok ==> final(self)@.dom() == old(self)@.dom(),
            r is Ok ==> forall|v: usize| #[trigger]
                old(self)@.contains_key(v) ==> final(self)@[v]@.eqv(old(self)@[v]@.mul(c@)),
            (c@.small() && all_small(old(self)@)) ==> r is Ok,
    {
        let ghost s = self.terms@;
        let ghost sm = c@.small() && all_small(coeff_map(s));
        let mut out: Vec<(usize, Fraction)> = Vec::new();
        let mut i: usize = 0;
        while i < self.terms.len()
            invariant
                i <= s.len(),
                self.terms@ == s,
                sorted_vars(s),
                out.len() == i,
                forall|k: int| 0 <= k < i ==> (#[trigger] out@[k]).0 == s[k].0,
                forall|k: int| 0 <= k < i ==> (#[trigger] out@[k]).1@.eqv(s[k].1@.mul(c@)),
                sm == (c@.small() && all_small(coeff_map(s))),
            decreases s.len() - i,
        {
            let e = self.terms[i];
            proof {
                lemma_coeff_at(s, i as int);
                if sm {
                    assert(coeff_map(s)[e.0]@.small());
                    lemma_small_mul(e.1@, c@);
                }
            }
            match e.1.checked_mul(c) {
                Some(p) => {
                    out.push((e.0, p));
                },
                None => {
                    return Err(ArithOverflow);
                },
            }
            i += 1;
        }
        proof {
            let t = out@;
            assert(sorted_vars(t));
            let m = coeff_map(s);
            assert forall|v: usize| has_var(t, v) <==> has_var(s, v) by {
                if has_var(t, v) {
                    let k = choose|k: int| 0 <= k < t.len() && t[k].0 == v;
                    assert(s[k].0 == v);
                }
                if has_var(s, v) {
                    let k = choose|k: int| 0 <= k < s.len() && s[k].0 == v;
                    assert(t[k].0 == v);
                }
            }
            assert(coeff_map(t).dom() =~= m.dom());
            assert forall|v: usize| #[trigger] m.contains_key(v) implies coeff_map(t)[v]@.eqv(m[v]@.mul(c@)) by {
                let k = choose|k: int| 0 <= k < s.len() && s[k].0 == v;
                lemma_coeff_at(s, k);
                lemma_coeff_at(t, k);
            }
        }
        self.terms = out;
        Ok(())
    }
    /// Adds `other · scale` to the row. An entry of the row alone keeps its
    /// coefficient; every other entry is kept only when its new coefficient
    /// is not zero.
    pub fn add_scaled(&mut self, other: &SparseRow, scale: &Fraction) -> (r: Result<(), ArithOverflow>)
        requires
            old(self).wf(),
            other.wf(),
        ensures
            final(self).wf(),
            r is Err ==> final(self)@ == old(self)@,
            r is Ok ==> forall|v: usize| #[trigger] merged_entry(old(self)@, other@, scale@, final(self)@, v),
            (scale@.small() && all_small(old(self)@) && all_small(other@)) ==> r is Ok,
    {
        let ghost a = self.terms@;
        let ghost b = other.terms@;
        let ghost am = coeff_map(a);
        let ghost bm = coeff_map(b);
        let ghost sc = scale@;
        let ghost sm = scale@.small() && all_small(am) && all_small(bm);
        let mut out: Vec<(usize, Fraction)> = Vec::new();
        let mut i: usize = 0;
        let mut j: usize = 0;
        proof {
            assert forall|v: usize| #[trigger] coeff_map(out@).contains_key(v) implies false by {
            }
        }
        while i < self.terms.len() || j < other.terms.len()
            invariant
                self.terms@ == a,
                other.terms@ == b,
                sorted_vars(a),
                sorted_vars(b),
                am == coeff_map(a),
                bm == coeff_map(b),
                sc == scale@,
                sm == (scale@.small() && all_small(am) && all_small(bm)),
                i <= a.len(),
                j <= b.len(),
                sorted_vars(out@),
                forall|k: int| 0 <= k < out@.len() ==> (i < a.len() ==> out@[k].0 < a[i as int].0),
                forall|k: int| 0 <= k < out@.len() ==> (j < b.len() ==> out@[k].0 < b[j as int].0),
                forall|p: int| 0 <= p < i ==> (j < b.len() ==> a[p].0 < b[j as int].0),
                forall|q: int| 0 <= q < j ==> (i < a.len() ==> b[q].0 < a[i as int].0),
                forall|v: usize|
                    (has_var(a.take(i as int), v) || has_var(b.take(j as int), v)) ==> #[trigger] merged_entry(
                        am,
                        bm,
                        sc,
                        coeff_map(out@),
                        v,
                    ),
                forall|v: usize| #[trigger]
                    coeff_map(out@).contains_key(v) ==> (has_var(a.take(i as int), v) || has_var(b.take(j as int), v)),
            decreases a.len() + b.len() - i - j,
        {
            let ghost before = out@;
            let ghost i0 = i as int;
            let ghost j0 = j as int;
            let take_a = j >= other.terms.len() || (i < self.terms.len() && self.terms[i].0 < other.terms[j].0);
            let take_b = !take_a && (i >= self.terms.len() || other.terms[j].0 < self.terms[i].0);
            if take_a {
                let e = self.terms[i];
                proof {
                    lemma_coeff_at(a, i0);
                    if has_var(b, e.0) {
                        let q = choose|q: int| 0 <= q < b.len() && b[q].0 == e.0;
                        if q >= j0 {
                            assert(b[j0].0 <= b[q].0);
                        }
                    }
                    assert(!bm.contains_key(e.0));
                    lemma_coeff_push(before, e);
                }
                out.push(e);
                i += 1;
                proof {
                    assert forall|v: usize| #[trigger]
                        has_var(a.take(i as int), v) <==> (has_var(a.take(i0), v) || e.0 == v) by {
                        lemma_has_var_take(a, i0, v);
                    }
                    assert(merged_entry(am, bm, sc, coeff_map(out@), e.0));
                    assert forall|v: usize|
                        (has_var(a.take(i as int), v) || has_var(b.take(j as int), v)) implies #[trigger] merged_entry(
                            am,
                            bm,
                            sc,
                            coeff_map(out@),
                            v,
                        ) by {
                        if v != e.0 {
                            assert(has_var(a.take(i0), v) || has_var(b.take(j0), v));
                            assert(merged_entry(am, bm, sc, coeff_map(before), v));
                            assert(coeff_map(out@).contains_key(v) == coeff_map(before).contains_key(v));
                            if coeff_map(before).contains_key(v) {
                                assert(coeff_map(out@)[v] == coeff_map(before)[v]);
                            }
                        }
                    }
                    if i < a.len() {
                        assert(a[i0].0 < a[i as int].0);
                    }
                }
            } else if take_b {
                let e = other.terms[j];
                proof {
                    lemma_coeff_at(b, j0);
                    if has_var(a, e.0) {
                        let p = choose|p: int| 0 <= p < a.len() && a[p].0 == e.0;
                        if p >= i0 {
                            assert(a[i0].0 <= a[p].0);
                        }
                    }
                    assert(!am.contains_key(e.0));
                    if sm {
                        assert(bm[e.0]@.small());
                        lemma_small_mul(e.1@, sc);
                    }
                }
                let d = match e.1.checked_mul(scale) {
                    Some(d) => d,
                    None => {
                        return Err(ArithOverflow);
                    },
                };
                proof {
                    assert(d@.fits());
                    assert(e.1@.fits());
                    assert(scale@.fits());
                    lemma_ops_wf(e.1@, sc);
                    lemma_eqv_zero(d@, e.1@.mul(sc));
                }
                if !d.is_zero() {
                    proof {
                        lemma_coeff_push(before, (e.0, d));
                    }
                    out.push((e.0, d));
                } else {
                    proof {
                        if coeff_map(before).contains_key(e.0) {
                            let k = choose|k: int| 0 <= k < before.len() && before[k].0 == e.0;
                            assert(before[k].0 < b[j0].0);
                        }
                    }
                }
                j += 1;
                proof {
                    assert forall|v: usize| #[trigger]
                        has_var(b.take(j as int), v) <==> (has_var(b.take(j0), v) || e.0 == v) by {
                        lemma_has_var_take(b, j0, v);
                    }
                    assert(merged_entry(am, bm, sc, coeff_map(out@), e.0));
                    assert forall|v: usize|
                        (has_var(a.take(i as int), v) || has_var(b.take(j as int), v)) implies #[trigger] merged_entry(
                            am,
                            bm,
                            sc,
                            coeff_map(out@),
                            v,
                        ) by {
                        if v != e.0 {
                            assert(has_var(a.take(i0), v) || has_var(b.take(j0), v));
                            assert(merged_entry(am, bm, sc, coeff_map(before), v));
                            assert(coeff_map(out@).contains_key(v) == coeff_map(before).contains_key(v));
                            if coeff_map(before).contains_key(v) {
                                assert(coeff_map(out@)[v] == coeff_map(before)[v]);
                            }
                        }
                    }
                    if j < b.len() {
                        assert(b[j0].0 < b[j as int].0);
                    }
                }
            } else {
                let ea = self.terms[i];
                let eb = other.terms[j];
                proof {
                    lemma_coeff_at(a, i0);
                    lemma_coeff_at(b, j0);
                    assert(ea.0 == eb.0);
                    if sm {
                        assert(bm[eb.0]@.small());
                        assert(am[ea.0]@.small());
                        lemma_small_mul(eb.1@, sc);
                    }
                }
                let d = match eb.1.checked_mul(scale) {
                    Some(d) => d,
                    None => {
                        return Err(ArithOverflow);
                    },
                };
                proof {
                    if sm {
                        assert(d@.fits());
                        assert(ea.1@.fits());
                        lemma_small_add(ea.1@, d@);
                    }
                }
                let c = match ea.1.checked_add(&d) {
                    Some(c) => c,
                    None => {
                        return Err(ArithOverflow);
                    },
                };
                proof {
                    assert(eb.1@.fits());
                    assert(ea.1@.fits());
                    assert(scale@.fits());
                    assert(d@.fits());
                    assert(c@.fits());
                    lemma_ops_wf(eb.1@, sc);
                    lemma_ops_wf(ea.1@, eb.1@.mul(sc));
                    lemma_eqv_refl(ea.1@);
                    lemma_add_eqv(ea.1@, ea.1@, d@, eb.1@.mul(sc));
                    lemma_ops_wf(ea.1@, d@);
                    lemma_eqv_trans(c@, ea.1@.add(d@), ea.1@.add(eb.1@.mul(sc)));
                    lemma_eqv_zero(c@, ea.1@.add(eb.1@.mul(sc)));
                }
                if !c.is_zero() {
                    proof {
                        lemma_coeff_push(before, (ea.0, c));
                    }
                    out.push((ea.0, c));
                } else {
                    proof {
                        if coeff_map(before).contains_key(ea.0) {
                            let k = choose|k: int| 0 <= k < before.len() && before[k].0 == ea.0;
                            assert(before[k].0 < a[i0].0);
                        }
                    }
                }
                i += 1;
                j += 1;
                proof {
                    assert forall|v: usize| #[trigger]
                        has_var(a.take(i as int), v) <==> (has_var(a.take(i0), v) || ea.0 == v) by {
                        lemma_has_var_take(a, i0, v);
                    }
                    assert forall|v: usize| #[trigger]
                        has_var(b.take(j as int), v) <==> (has_var(b.take(j0), v) || eb.0 == v) by {
                        lemma_has_var_take(b, j0, v);
                    }
                    assert(merged_entry(am, bm, sc, coeff_map(out@), ea.0));
                    assert forall|v: usize|
                        (has_var(a.take(i as int), v) || has_var(b.take(j as int), v)) implies #[trigger] merged_entry(
                            am,
                            bm,
                            sc,
                            coeff_map(out@),
                            v,
                        ) by {
                        if v != ea.0 {
                            assert(has_var(a.take(i0), v) || has_var(b.take(j0), v));
                            assert(merged_entry(am, bm, sc, coeff_map(before), v));
                            assert(coeff_map(out@).contains_key(v) == coeff_map(before).contains_key(v));
                            if coeff_map(before).contains_key(v) {
                                assert(coeff_map(out@)[v] == coeff_map(before)[v]);
                            }
                        }
                    }
                    if i < a.len() {
                        assert(a[i0].0 < a[i as int].0);
                    }
                    if j < b.len() {
                        assert(b[j0].0 < b[j as int].0);
                    }
                }
            }
        }
        proof {
            assert(a.take(a.len() as int) =~= a);
            assert(b.take(b.len() as int) =~= b);
            assert forall|v: usize| #[trigger] merged_entry(am, bm, sc, coeff_map(out@), v) by {
                if !has_var(a, v) && !has_var(b, v) {
                    assert(!coeff_map(out@).contains_key(v));
                }
            }
        }
        self.terms = out;
        Ok(())
    }
}

impl SparseRow {
    /// Whether both rows have the same variables, in the same order, with
    /// coefficients of the same value.
    pub fn same_as(&self, other: &SparseRow) -> (r: bool)
        ensures
            r == (self.seq().len() == other.seq().len() && forall|i: int|
                0 <= i < self.seq().len() ==> (#[trigger] self.seq()[i]).0 == other.seq()[i].0 && self.seq()[i].1@.eqv(
                    other.seq()[i].1@,
                )),
    {
        if self.terms.len() != other.terms.len() {
            return false;
        }
        let mut i: usize = 0;
        while i < self.terms.len()
            invariant
                i <= self.terms.len(),
                self.terms.len() == other.terms.len(),
                forall|k: int|
                    0 <= k < i ==> (#[trigger] self.terms@[k]).0 == other.terms@[k].0 && self.terms@[k].1@.eqv(other.terms@[k].1@),
            decreases self.terms.len() - i,
        {
            if self.terms[i].0 != other.terms[i].0 || !self.terms[i].1.eq_value(&other.terms[i].1) {
                return false;
            }
            i += 1;
        }
        true
    }
}

} // verus!
