//! Encoding of the Boolean structure of a formula into clauses: every
//! conjunction and disjunction gets a fresh variable defined to be
//! equivalent to it, so that the clauses are satisfiable together with the
//! formula's literal exactly when the formula is.
use crate::ast::{bools_model, lemma_bools_model, BoolExpr, SBool};
use crate::lit::Lit;
use vstd::prelude::*;

verus! {

/// `l` holds under the assignment `m` of the Boolean variables.
pub open spec fn lit_holds(m: Seq<bool>, l: Lit) -> bool {
    m[l.var as int] != l.sign
}

/// Some literal of `c` holds under `m`.
pub open spec fn clause_holds(m: Seq<bool>, c: Seq<Lit>) -> bool {
    exists|i: int| 0 <= i < c.len() && #[trigger] lit_holds(m, c[i])
}

/// Every clause of `cs` from index `from` on holds under `m`.
pub open spec fn clauses_hold(m: Seq<bool>, cs: Seq<Vec<Lit>>, from: int) -> bool {
    forall|j: int| from <= j < cs.len() ==> #[trigger] clause_holds(m, cs[j]@)
}

/// Every literal of the clauses of `cs` from index `from` on has a variable
/// below `k`.
pub open spec fn clauses_below(cs: Seq<Vec<Lit>>, from: int, k: nat) -> bool {
    forall|j: int, i: int| from <= j < cs.len() && 0 <= i < cs[j]@.len() ==> #[trigger] cs[j]@[i].var < k
}

/// `e` is built from constants, Boolean variables below `k`, negations,
/// conjunctions and disjunctions.
pub open spec fn skeleton(e: SBool, k: nat) -> bool
    decreases e, 1int,
{
    match e {
        SBool::True => true,
        SBool::False => true,
        SBool::Var(v) => v.0 < k,
        SBool::Not(x) => skeleton(*x, k),
        SBool::And(ts) => all_skeleton(ts, k),
        SBool::Or(ts) => all_skeleton(ts, k),
        _ => false,
    }
}

pub open spec fn all_skeleton(ts: Seq<SBool>, k: nat) -> bool
    decreases ts, 0int,
{
    if ts.len() == 0 {
        true
    } else {
        all_skeleton(ts.drop_last(), k) && skeleton(ts.last(), k)
    }
}

/// The truth of `e` when Boolean variable `v` has the value `m[v]`.
pub open spec fn sk_eval(e: SBool, m: Seq<bool>) -> bool
    decreases e, 1int,
{
    match e {
        SBool::True => true,
        SBool::False => false,
        SBool::Var(v) => m[v.0 as int],
        SBool::Not(x) => !sk_eval(*x, m),
        SBool::And(ts) => all_true(ts, m),
        SBool::Or(ts) => any_true(ts, m),
        _ => false,
    }
}

pub open spec fn all_true(ts: Seq<SBool>, m: Seq<bool>) -> bool
    decreases ts, 0int,
{
    ts.len() == 0 || (all_true(ts.drop_last(), m) && sk_eval(ts.last(), m))
}

pub open spec fn any_true(ts: Seq<SBool>, m: Seq<bool>) -> bool
    decreases ts, 0int,
{
    ts.len() != 0 && (any_true(ts.drop_last(), m) || sk_eval(ts.last(), m))
}

/// The number of fresh variables that encoding `e` takes: one per
/// conjunction and disjunction.
pub open spec fn proxies(e: SBool) -> nat
    decreases e, 1int,
{
    match e {
        SBool::Not(x) => proxies(*x),
        SBool::And(ts) => all_proxies(ts) + 1,
        SBool::Or(ts) => all_proxies(ts) + 1,
        _ => 0,
    }
}

pub open spec fn all_proxies(ts: Seq<SBool>) -> nat
    decreases ts, 0int,
{
    if ts.len() == 0 {
        0
    } else {
        all_proxies(ts.drop_last()) + proxies(ts.last())
    }
}

/// `m` extended by the values of the fresh variables of `e`, in the order
/// in which the encoder numbers them: each fresh variable takes the value of
/// the conjunction or disjunction that it stands for.
pub open spec fn extend(e: SBool, m: Seq<bool>) -> Seq<bool>
    decreases e, 1int,
{
    match e {
        SBool::Not(x) => extend(*x, m),
        SBool::And(ts) => extend_all(ts, m).push(all_true(ts, m)),
        SBool::Or(ts) => extend_all(ts, m).push(any_true(ts, m)),
        _ => m,
    }
}

pub open spec fn extend_all(ts: Seq<SBool>, m: Seq<bool>) -> Seq<bool>
    decreases ts, 0int,
{
    if ts.len() == 0 {
        m
    } else {
        extend(ts.last(), extend_all(ts.drop_last(), m))
    }
}

proof fn lemma_all_true(ts: Seq<SBool>, m: Seq<bool>)
    ensures
        all_true(ts, m) <==> forall|k: int| 0 <= k < ts.len() ==> #[trigger] sk_eval(ts[k], m),
        any_true(ts, m) <==> exists|k: int| 0 <= k < ts.len() && #[trigger] sk_eval(ts[k], m),
    decreases ts.len(),
{
    if ts.len() > 0 {
        let t0 = ts.drop_last();
        lemma_all_true(t0, m);
        assert forall|k: int| 0 <= k < t0.len() implies #[trigger] t0[k] == ts[k] by {}
        if all_true(ts, m) {
            assert forall|k: int| 0 <= k < ts.len() implies #[trigger] sk_eval(ts[k], m) by {
                if k < t0.len() {
                    assert(sk_eval(t0[k], m));
                }
            }
        }
        if forall|k: int| 0 <= k < ts.len() ==> #[trigger] sk_eval(ts[k], m) {
            assert(sk_eval(ts[ts.len() - 1], m));
            assert forall|k: int| 0 <= k < t0.len() implies #[trigger] sk_eval(t0[k], m) by {
                assert(sk_eval(ts[k], m));
            }
        }
        if any_true(ts, m) {
            if !sk_eval(ts.last(), m) {
                let k = choose|k: int| 0 <= k < t0.len() && #[trigger] sk_eval(t0[k], m);
                assert(sk_eval(ts[k], m));
            } else {
                assert(sk_eval(ts[ts.len() - 1], m));
            }
        }
        if exists|k: int| 0 <= k < ts.len() && #[trigger] sk_eval(ts[k], m) {
            let k = choose|k: int| 0 <= k < ts.len() && #[trigger] sk_eval(ts[k], m);
            if k < t0.len() {
                assert(sk_eval(t0[k], m));
            }
        }
    }
}

pub proof fn lemma_all_skeleton(ts: Seq<SBool>, k: nat, i: int)
    requires
        all_skeleton(ts, k),
        0 <= i < ts.len(),
    ensures
        skeleton(ts[i], k),
        all_skeleton(ts.take(i), k),
    decreases ts.len(),
{
    if i < ts.len() - 1 {
        lemma_all_skeleton(ts.drop_last(), k, i);
        assert(ts.drop_last().take(i) =~= ts.take(i));
    } else {
        assert(ts.drop_last() =~= ts.take(i));
    }
}

/// A formula over the variables below `k` is one over the variables below
/// any larger bound.
pub proof fn lemma_skeleton_grow(e: SBool, k: nat, k2: nat)
    requires
        skeleton(e, k),
        k <= k2,
    ensures
        skeleton(e, k2),
    decreases e, 1int,
{
    match e {
        SBool::Not(x) => lemma_skeleton_grow(*x, k, k2),
        SBool::And(ts) => lemma_all_skeleton_grow(ts, k, k2),
        SBool::Or(ts) => lemma_all_skeleton_grow(ts, k, k2),
        _ => {},
    }
}

proof fn lemma_all_skeleton_grow(ts: Seq<SBool>, k: nat, k2: nat)
    requires
        all_skeleton(ts, k),
        k <= k2,
    ensures
        all_skeleton(ts, k2),
    decreases ts, 0int,
{
    if ts.len() > 0 {
        lemma_all_skeleton_grow(ts.drop_last(), k, k2);
        lemma_skeleton_grow(ts.last(), k, k2);
    }
}

/// The truth of a formula over the variables below `k` depends on the
/// values of those variables only.
proof fn lemma_eval_prefix(e: SBool, m1: Seq<bool>, m2: Seq<bool>, k: nat)
    requires
        skeleton(e, k),
        m1.len() >= k,
        m2.len() >= k,
        forall|i: int| 0 <= i < k ==> m1[i] == m2[i],
    ensures
        sk_eval(e, m1) == sk_eval(e, m2),
    decreases e, 1int,
{
    match e {
        SBool::Not(x) => lemma_eval_prefix(*x, m1, m2, k),
        SBool::And(ts) => lemma_all_eval_prefix(ts, m1, m2, k),
        SBool::Or(ts) => lemma_all_eval_prefix(ts, m1, m2, k),
        _ => {},
    }
}

proof fn lemma_all_eval_prefix(ts: Seq<SBool>, m1: Seq<bool>, m2: Seq<bool>, k: nat)
    requires
        all_skeleton(ts, k),
        m1.len() >= k,
        m2.len() >= k,
        forall|i: int| 0 <= i < k ==> m1[i] == m2[i],
    ensures
        all_true(ts, m1) == all_true(ts, m2),
        any_true(ts, m1) == any_true(ts, m2),
    decreases ts, 0int,
{
    if ts.len() > 0 {
        lemma_all_eval_prefix(ts.drop_last(), m1, m2, k);
        lemma_eval_prefix(ts.last(), m1, m2, k);
    }
}

/// The extension adds exactly the fresh variables and keeps `m` as a prefix.
proof fn lemma_extend(e: SBool, m: Seq<bool>)
    ensures
        extend(e, m).len() == m.len() + proxies(e),
        forall|i: int| 0 <= i < m.len() ==> #[trigger] extend(e, m)[i] == m[i],
    decreases e, 1int,
{
    match e {
        SBool::Not(x) => lemma_extend(*x, m),
        SBool::And(ts) => lemma_extend_all(ts, m),
        SBool::Or(ts) => lemma_extend_all(ts, m),
        _ => {},
    }
}

proof fn lemma_extend_all(ts: Seq<SBool>, m: Seq<bool>)
    ensures
        extend_all(ts, m).len() == m.len() + all_proxies(ts),
        forall|i: int| 0 <= i < m.len() ==> #[trigger] extend_all(ts, m)[i] == m[i],
    decreases ts, 0int,
{
    if ts.len() > 0 {
        lemma_extend_all(ts.drop_last(), m);
        lemma_extend(ts.last(), extend_all(ts.drop_last(), m));
    }
}

/// A clause over the variables below `k` holds under two assignments that
/// agree below `k` alike.
proof fn lemma_clauses_prefix(cs: Seq<Vec<Lit>>, from: int, m1: Seq<bool>, m2: Seq<bool>, k: nat)
    requires
        clauses_below(cs, from, k),
        clauses_hold(m1, cs, from),
        m1.len() >= k,
        m2.len() >= k,
        forall|i: int| 0 <= i < k ==> m1[i] == m2[i],
    ensures
        clauses_hold(m2, cs, from),
{
    assert forall|j: int| from <= j < cs.len() implies #[trigger] clause_holds(m2, cs[j]@) by {
        assert(clause_holds(m1, cs[j]@));
        let i = choose|i: int| 0 <= i < cs[j]@.len() && #[trigger] lit_holds(m1, cs[j]@[i]);
        assert(cs[j]@[i].var < k);
        assert(lit_holds(m2, cs[j]@[i]));
    }
}

/// The truth of the conjunction (when `conj`) or the disjunction of `ts`.
pub open spec fn gate_value(conj: bool, ts: Seq<SBool>, m: Seq<bool>) -> bool {
    if conj {
        all_true(ts, m)
    } else {
        any_true(ts, m)
    }
}

/// The clause defining a gate literal `p` in terms of operand literal `l`:
/// `p` implies `l` for a conjunction, `l` implies `p` for a disjunction.
pub open spec fn side_clause(conj: bool, p: Lit, l: Lit) -> Seq<Lit> {
    if conj {
        seq![p.negated(), l]
    } else {
        seq![l.negated(), p]
    }
}

/// Encodes the conjunction (when `conj`) or the disjunction of `ts`: the
/// operands are encoded first, then a fresh variable `p` is defined by one
/// clause per operand and one clause over all of them.
fn encode_gate(ts: &Vec<BoolExpr>, conj: bool, tru: Lit, next: &mut usize, clauses: &mut Vec<Vec<Lit>>) -> (r: Lit)
    requires
        all_skeleton(bools_model(ts@), *old(next) as nat),
        tru.var < *old(next),
        *old(next) + all_proxies(bools_model(ts@)) + 1 <= usize::MAX,
    ensures
        *final(next) == *old(next) + all_proxies(bools_model(ts@)) + 1,
        r == (Lit { var: (*final(next) - 1) as usize, sign: false }),
        final(clauses)@.len() >= old(clauses)@.len(),
        forall|j: int| 0 <= j < old(clauses)@.len() ==> #[trigger] final(clauses)@[j] == old(clauses)@[j],
        clauses_below(final(clauses)@, old(clauses)@.len() as int, *final(next) as nat),
        forall|m: Seq<bool>|
            #![trigger clauses_hold(m, final(clauses)@, old(clauses)@.len() as int)]
            m.len() >= *final(next) && lit_holds(m, tru) && clauses_hold(m, final(clauses)@, old(clauses)@.len() as int)
                ==> lit_holds(m, r) == gate_value(conj, bools_model(ts@), m),
        forall|m: Seq<bool>|
            #![trigger extend_all(bools_model(ts@), m)]
            m.len() == *old(next) && lit_holds(m, tru) ==> clauses_hold(
                extend_all(bools_model(ts@), m).push(gate_value(conj, bools_model(ts@), m)),
                final(clauses)@,
                old(clauses)@.len() as int,
            ),
    decreases ts, 0int,
{
    let ghost base = *next as nat;
    let ghost c0 = clauses@.len() as int;
    let ghost bm = bools_model(ts@);
    proof {
        lemma_bools_model(ts@);
        assert(bm.take(0) =~= Seq::<SBool>::empty());
        assert forall|m: Seq<bool>| m.len() == base && lit_holds(m, tru) implies #[trigger] clauses_hold(
            extend_all(bm.take(0), m),
            clauses@,
            c0,
        ) by {}
    }
    let mut lits: Vec<Lit> = Vec::new();
    let mut i: usize = 0;
    while i < ts.len()
        invariant
            i <= ts.len(),
            bm == bools_model(ts@),
            bm.len() == ts.len(),
            forall|k: int| 0 <= k < ts.len() ==> #[trigger] bm[k] == ts@[k]@,
            all_skeleton(bm, base),
            tru.var < base,
            base + all_proxies(bm) + 1 <= usize::MAX,
            base == *old(next),
            c0 == old(clauses)@.len(),
            *next == base + all_proxies(bm.take(i as int)),
            all_proxies(bm.take(i as int)) <= all_proxies(bm),
            lits@.len() == i,
            forall|k: int| 0 <= k < i ==> #[trigger] lits@[k].var < *next,
            clauses@.len() >= c0,
            forall|j: int| 0 <= j < c0 ==> #[trigger] clauses@[j] == old(clauses)@[j],
            clauses_below(clauses@, c0, *next as nat),
            forall|m: Seq<bool>|
                #![trigger clauses_hold(m, clauses@, c0)]
                m.len() >= *next && lit_holds(m, tru) && clauses_hold(m, clauses@, c0) ==> forall|k: int|
                    0 <= k < i ==> lit_holds(m, #[trigger] lits@[k]) == sk_eval(bm[k], m),
            forall|m: Seq<bool>|
                #![trigger extend_all(bm.take(i as int), m)]
                m.len() == base && lit_holds(m, tru) ==> clauses_hold(extend_all(bm.take(i as int), m), clauses@, c0)
                    && forall|k: int|
                    0 <= k < i ==> lit_holds(extend_all(bm.take(i as int), m), #[trigger] lits@[k]) == sk_eval(bm[k], m),
        decreases ts.len() - i,
    {
        proof {
            vstd::std_specs::vec::axiom_vec_index_decreases(*ts, i as int);
            lemma_all_skeleton(bm, base, i as int);
            lemma_skeleton_grow(bm[i as int], base, *next as nat);
            let t1 = bm.take(i + 1);
            assert(t1.drop_last() =~= bm.take(i as int));
            assert(t1.last() == bm[i as int]);
            lemma_all_proxies_take(bm, i + 1);
        }
        let ghost next_i = *next as nat;
        let ghost cl_i = clauses@;
        let ghost lits_i = lits@;
        let l = encode_bool(&ts[i], tru, next, clauses);
        lits.push(l);
        proof {
            let ti = bm[i as int];
            let t1 = bm.take(i + 1);
            assert(ts@[i as int]@ == ti);
            assert forall|k: int| 0 <= k < i + 1 implies #[trigger] lits@[k].var < *next by {
                if k < i {
                    assert(lits@[k] == lits_i[k]);
                }
            }
            assert forall|j: int, q: int|
                c0 <= j < clauses@.len() && 0 <= q < clauses@[j]@.len() implies #[trigger] clauses@[j]@[q].var < *next by {
                if j < cl_i.len() {
                    assert(clauses@[j] == cl_i[j]);
                    assert(cl_i[j]@[q].var < next_i);
                }
            }
            assert forall|m: Seq<bool>|
                m.len() >= *next && lit_holds(m, tru) && #[trigger] clauses_hold(m, clauses@, c0) implies forall|k: int|
                0 <= k < i + 1 ==> lit_holds(m, #[trigger] lits@[k]) == sk_eval(bm[k], m) by {
                assert(clauses_hold(m, clauses@, cl_i.len() as int));
                assert forall|j: int| c0 <= j < cl_i.len() implies #[trigger] clause_holds(m, cl_i[j]@) by {
                    assert(clauses@[j] == cl_i[j]);
                    assert(clause_holds(m, clauses@[j]@));
                }
                assert(clauses_hold(m, cl_i, c0));
                assert forall|k: int| 0 <= k < i + 1 implies lit_holds(m, #[trigger] lits@[k]) == sk_eval(bm[k], m) by {
                    if k < i {
                        assert(lits@[k] == lits_i[k]);
                        assert(lit_holds(m, lits_i[k]) == sk_eval(bm[k], m));
                    } else {
                        assert(lits@[k] == l);
                    }
                }
            }
            assert forall|m: Seq<bool>| m.len() == base && lit_holds(m, tru) implies clauses_hold(
                #[trigger] extend_all(t1, m),
                clauses@,
                c0,
            ) && forall|k: int| 0 <= k < i + 1 ==> lit_holds(extend_all(t1, m), #[trigger] lits@[k]) == sk_eval(bm[k], m) by {
                let mi = extend_all(bm.take(i as int), m);
                let m1 = extend_all(t1, m);
                assert(m1 == extend(ti, mi));
                lemma_extend_all(bm.take(i as int), m);
                lemma_extend(ti, mi);
                assert(mi.len() == next_i);
                assert(lit_holds(mi, tru)) by {
                    assert(mi[tru.var as int] == m[tru.var as int]);
                }
                assert(clauses_hold(mi, cl_i, c0));
                lemma_clauses_prefix(cl_i, c0, mi, m1, next_i);
                assert(clauses_hold(m1, clauses@, cl_i.len() as int));
                assert forall|j: int| c0 <= j < clauses@.len() implies #[trigger] clause_holds(m1, clauses@[j]@) by {
                    if j < cl_i.len() {
                        assert(clauses@[j] == cl_i[j]);
                        assert(clause_holds(m1, cl_i[j]@));
                    }
                }
                lemma_all_skeleton(bm, base, i as int);
                lemma_eval_prefix(ti, mi, m, base);
                assert forall|k: int| 0 <= k < i + 1 implies lit_holds(m1, #[trigger] lits@[k]) == sk_eval(bm[k], m) by {
                    if k < i {
                        assert(lits@[k] == lits_i[k]);
                        assert(lit_holds(mi, lits_i[k]) == sk_eval(bm[k], m));
                        assert(lits_i[k].var < next_i);
                        assert(m1[lits_i[k].var as int] == mi[lits_i[k].var as int]);
                    } else {
                        assert(lits@[k] == l);
                    }
                }
            }
        }
        i += 1;
    }
    proof {
        assert(bm.take(ts.len() as int) =~= bm);
    }
    let ghost c1 = clauses@.len() as int;
    let ghost cl1 = clauses@;
    let pv = *next;
    *next = pv + 1;
    let p = Lit::new(pv, false);
    let mut k: usize = 0;
    let mut big: Vec<Lit> = Vec::new();
    while k < lits.len()
        invariant
            k <= lits.len(),
            lits@.len() == bm.len(),
            p == (Lit { var: pv, sign: false }),
            0 <= c1,
            clauses@.len() == c1 + k,
            forall|j: int| 0 <= j < c1 ==> #[trigger] clauses@[j] == cl1[j],
            forall|j: int| 0 <= j < k ==> #[trigger] clauses@[c1 + j]@ == side_clause(conj, p, lits@[j]),
            big@.len() == k,
            forall|j: int| 0 <= j < k ==> #[trigger] big@[j] == (if conj {
                lits@[j].negated()
            } else {
                lits@[j]
            }),
        decreases lits.len() - k,
    {
        let l = lits[k];
        let c = if conj {
            vec![p.negate(), l]
        } else {
            vec![l.negate(), p]
        };
        proof {
            assert(c@ =~= side_clause(conj, p, l));
        }
        let ghost cb = clauses@;
        let ghost cv = c;
        clauses.push(c);
        proof {
            assert(clauses@ == cb.push(cv));
            assert(cb.len() == c1 + k);
            assert forall|j: int| 0 <= j < c1 implies #[trigger] clauses@[j] == cl1[j] by {
                assert(clauses@[j] == cb.push(cv)[j]);
            }
            assert(l == lits@[k as int]);
            assert(clauses@[c1 + k] == cv);
            assert(clauses@[c1 + k]@ == side_clause(conj, p, lits@[k as int]));
            assert forall|j: int| 0 <= j < k + 1 implies #[trigger] clauses@[c1 + j]@ == side_clause(conj, p, lits@[j]) by {
                assert(clauses@[c1 + j] == cb.push(cv)[c1 + j]);
                if j < k {
                    assert(cb.push(cv)[c1 + j] == cb[c1 + j]);
                    assert(cb[c1 + j]@ == side_clause(conj, p, lits@[j]));
                    assert(clauses@[c1 + j]@ == cb[c1 + j]@);
                } else {
                    assert(l == lits@[k as int]);
                    assert(cb.push(cv)[cb.len() as int] == cv);
                    assert(cv@ == side_clause(conj, p, l));
                }
            }
        }
        if conj {
            big.push(l.negate());
        } else {
            big.push(l);
        }
        k += 1;
    }
    if conj {
        big.push(p);
    } else {
        big.push(p.negate());
    }
    let ghost bigv = big@;
    clauses.push(big);
    proof {
        let cf = clauses@;
        let last = cf.len() - 1;
        assert(cf[last]@ == bigv);
        assert forall|j: int| 0 <= j < c0 implies #[trigger] cf[j] == old(clauses)@[j] by {
            assert(cf[j] == cl1[j]);
        }
        assert forall|j: int, q: int| c0 <= j < cf.len() && 0 <= q < cf[j]@.len() implies #[trigger] cf[j]@[q].var < *next by {
            if j < c1 {
                assert(cf[j] == cl1[j]);
            } else if j < last {
                assert(cf[c1 + (j - c1)]@ == side_clause(conj, p, lits@[j - c1]));
            }
        }
        // soundness
        assert forall|m: Seq<bool>|
            m.len() >= *next && lit_holds(m, tru) && #[trigger] clauses_hold(m, cf, c0) implies lit_holds(m, p)
            == gate_value(conj, bm, m) by {
            assert forall|j: int| c0 <= j < cl1.len() implies #[trigger] clause_holds(m, cl1[j]@) by {
                assert(cf[j] == cl1[j]);
                assert(clause_holds(m, cf[j]@));
            }
            assert(clauses_hold(m, cl1, c0));
            assert(forall|q: int| 0 <= q < bm.len() ==> lit_holds(m, #[trigger] lits@[q]) == sk_eval(bm[q], m));
            lemma_all_true(bm, m);
            assert forall|q: int| 0 <= q < bm.len() implies #[trigger] clause_holds(m, side_clause(conj, p, lits@[q])) by {
                assert(cf[c1 + q]@ == side_clause(conj, p, lits@[q]));
                assert(clause_holds(m, cf[c1 + q]@));
            }
            assert(clause_holds(m, bigv)) by {
                assert(clause_holds(m, cf[last]@));
            }
            if conj {
                if lit_holds(m, p) {
                    assert forall|q: int| 0 <= q < bm.len() implies #[trigger] sk_eval(bm[q], m) by {
                        let sc = side_clause(conj, p, lits@[q]);
                        assert(clause_holds(m, sc));
                        let w = choose|w: int| 0 <= w < sc.len() && #[trigger] lit_holds(m, sc[w]);
                        assert(lit_holds(m, lits@[q]));
                    }
                } else if all_true(bm, m) {
                    let w = choose|w: int| 0 <= w < bigv.len() && #[trigger] lit_holds(m, bigv[w]);
                    if w < bm.len() {
                        assert(lit_holds(m, lits@[w]));
                        assert(sk_eval(bm[w], m));
                    }
                }
            } else {
                if lit_holds(m, p) {
                    let w = choose|w: int| 0 <= w < bigv.len() && #[trigger] lit_holds(m, bigv[w]);
                    assert(w < bm.len());
                    assert(lit_holds(m, lits@[w]));
                    assert(sk_eval(bm[w], m));
                } else if any_true(bm, m) {
                    let q = choose|q: int| 0 <= q < bm.len() && #[trigger] sk_eval(bm[q], m);
                    let sc = side_clause(conj, p, lits@[q]);
                    assert(clause_holds(m, sc));
                    let w = choose|w: int| 0 <= w < sc.len() && #[trigger] lit_holds(m, sc[w]);
                    assert(lit_holds(m, lits@[q]));
                }
            }
        }
        // completeness
        assert forall|m: Seq<bool>| m.len() == base && lit_holds(m, tru) implies #[trigger] clauses_hold(
            extend_all(bm, m).push(gate_value(conj, bm, m)),
            cf,
            c0,
        ) by {
            let me = extend_all(bm, m);
            let g = gate_value(conj, bm, m);
            let x = me.push(g);
            lemma_extend_all(bm, m);
            assert(me.len() == pv);
            assert(clauses_hold(me, cl1, c0) && forall|q: int|
                0 <= q < bm.len() ==> lit_holds(me, #[trigger] lits@[q]) == sk_eval(bm[q], m));
            assert forall|q: int| 0 <= q < pv implies x[q] == me[q] by {}
            lemma_clauses_prefix(cl1, c0, me, x, pv as nat);
            assert(x[pv as int] == g);
            assert(lit_holds(x, p) == g);
            lemma_all_true(bm, m);
            assert forall|q: int| 0 <= q < bm.len() implies lit_holds(x, #[trigger] lits@[q]) == sk_eval(bm[q], m) by {
                assert(lit_holds(me, lits@[q]) == sk_eval(bm[q], m));
                assert(lits@[q].var < pv);
            }
            assert forall|j: int| c0 <= j < cf.len() implies #[trigger] clause_holds(x, cf[j]@) by {
                if j < c1 {
                    assert(cf[j] == cl1[j]);
                    assert(clause_holds(x, cl1[j]@));
                } else if j < last {
                    let q = j - c1;
                    let sc = side_clause(conj, p, lits@[q]);
                    assert(cf[c1 + q]@ == sc);
                    assert(lit_holds(x, lits@[q]) == sk_eval(bm[q], m));
                    if conj {
                        if g {
                            assert(sk_eval(bm[q], m));
                            assert(lit_holds(x, sc[1]));
                        } else {
                            assert(lit_holds(x, sc[0]));
                        }
                    } else {
                        if g {
                            assert(lit_holds(x, sc[1]));
                        } else {
                            assert(!sk_eval(bm[q], m));
                            assert(lit_holds(x, sc[0]));
                        }
                    }
                } else {
                    assert(cf[j]@ == bigv);
                    if conj {
                        if g {
                            assert(lit_holds(x, bigv[bm.len() as int]));
                        } else {
                            let q = choose|q: int| 0 <= q < bm.len() && !#[trigger] sk_eval(bm[q], m);
                            assert(lit_holds(x, bigv[q]));
                        }
                    } else {
                        if g {
                            let q = choose|q: int| 0 <= q < bm.len() && #[trigger] sk_eval(bm[q], m);
                            assert(lit_holds(x, bigv[q]));
                        } else {
                            assert(lit_holds(x, bigv[bm.len() as int]));
                        }
                    }
                }
            }
        }
    }
    p
}

/// Encodes the Boolean structure of `expr`, whose atoms are Boolean
/// variables and constants, into the clauses appended to `clauses`, and
/// returns the literal that stands for it. `tru` is a literal kept true;
/// `next` is the first unused variable, moved past the fresh variables.
///
/// Under every assignment that makes `tru` and the new clauses hold, the
/// returned literal has the value of `expr`; and every assignment of the
/// variables below `next` extends to one that makes the new clauses hold.
pub fn encode_bool(expr: &BoolExpr, tru: Lit, next: &mut usize, clauses: &mut Vec<Vec<Lit>>) -> (r: Lit)
    requires
        skeleton(expr@, *old(next) as nat),
        tru.var < *old(next),
        *old(next) + proxies(expr@) <= usize::MAX,
    ensures
        *final(next) == *old(next) + proxies(expr@),
        r.var < *final(next),
        final(clauses)@.len() >= old(clauses)@.len(),
        forall|j: int| 0 <= j < old(clauses)@.len() ==> #[trigger] final(clauses)@[j] == old(clauses)@[j],
        clauses_below(final(clauses)@, old(clauses)@.len() as int, *final(next) as nat),
        forall|m: Seq<bool>|
            #![trigger clauses_hold(m, final(clauses)@, old(clauses)@.len() as int)]
            m.len() >= *final(next) && lit_holds(m, tru) && clauses_hold(m, final(clauses)@, old(clauses)@.len() as int)
                ==> lit_holds(m, r) == sk_eval(expr@, m),
        forall|m: Seq<bool>|
            #![trigger extend(expr@, m)]
            m.len() == *old(next) && lit_holds(m, tru) ==> clauses_hold(extend(expr@, m), final(clauses)@, old(clauses)@.len() as int)
                && lit_holds(extend(expr@, m), r) == sk_eval(expr@, m),
    decreases expr, 1int,
{
    let ghost c0 = clauses@.len() as int;
    match expr {
        BoolExpr::True => {
            proof {
                assert forall|m: Seq<bool>| #[trigger] clauses_hold(m, clauses@, c0) by {}
                assert(expr@ == SBool::True);
                assert forall|m: Seq<bool>| m.len() == *old(next) && lit_holds(m, tru) implies clauses_hold(
                    #[trigger] extend(expr@, m),
                    clauses@,
                    c0,
                ) && lit_holds(extend(expr@, m), tru) == sk_eval(expr@, m) by {
                    assert(extend(expr@, m) == m);
                }
            }
            tru
        },
        BoolExpr::False => {
            proof {
                assert forall|m: Seq<bool>| #[trigger] clauses_hold(m, clauses@, c0) by {}
                assert(expr@ == SBool::False);
                assert forall|m: Seq<bool>| m.len() == *old(next) && lit_holds(m, tru) implies clauses_hold(
                    #[trigger] extend(expr@, m),
                    clauses@,
                    c0,
                ) && lit_holds(extend(expr@, m), tru.negated()) == sk_eval(expr@, m) by {
                    assert(extend(expr@, m) == m);
                }
            }
            tru.negate()
        },
        BoolExpr::Var(v) => {
            proof {
                assert forall|m: Seq<bool>| #[trigger] clauses_hold(m, clauses@, c0) by {}
                assert forall|m: Seq<bool>| #[trigger] extend(expr@, m) == m by {}
                assert(expr@ == SBool::Var(*v));
            }
            Lit::new(v.0, false)
        },
        BoolExpr::Not(x) => {
            let l = encode_bool(x, tru, next, clauses);
            proof {
                assert(expr@ == SBool::Not(Box::new((**x)@)));
                assert forall|m: Seq<bool>| m.len() == *old(next) && lit_holds(m, tru) implies clauses_hold(
                    #[trigger] extend(expr@, m),
                    clauses@,
                    c0,
                ) && lit_holds(extend(expr@, m), l.negated()) == sk_eval(expr@, m) by {
                    assert(extend(expr@, m) == extend((**x)@, m));
                    assert(clauses_hold(extend((**x)@, m), clauses@, c0));
                }
            }
            l.negate()
        },
        BoolExpr::And(ts) => {
            let ghost bm = bools_model(ts@);
            proof {
                assert(expr@ == SBool::And(bm));
            }
            let r = encode_gate(ts, true, tru, next, clauses);
            proof {
                assert forall|m: Seq<bool>| m.len() == *old(next) && lit_holds(m, tru) implies clauses_hold(
                    #[trigger] extend(expr@, m),
                    clauses@,
                    c0,
                ) && lit_holds(extend(expr@, m), r) == sk_eval(expr@, m) by {
                    let x = extend_all(bm, m).push(all_true(bm, m));
                    assert(extend(expr@, m) == x);
                    assert(gate_value(true, bm, m) == all_true(bm, m));
                    assert(clauses_hold(extend_all(bm, m).push(gate_value(true, bm, m)), clauses@, c0));
                    lemma_extend_all(bm, m);
                    assert(x[x.len() - 1] == all_true(bm, m));
                }
            }
            r
        },
        BoolExpr::Or(ts) => {
            let ghost bm = bools_model(ts@);
            proof {
                assert(expr@ == SBool::Or(bm));
            }
            let r = encode_gate(ts, false, tru, next, clauses);
            proof {
                assert forall|m: Seq<bool>| m.len() == *old(next) && lit_holds(m, tru) implies clauses_hold(
                    #[trigger] extend(expr@, m),
                    clauses@,
                    c0,
                ) && lit_holds(extend(expr@, m), r) == sk_eval(expr@, m) by {
                    let x = extend_all(bm, m).push(any_true(bm, m));
                    assert(extend(expr@, m) == x);
                    assert(gate_value(false, bm, m) == any_true(bm, m));
                    assert(clauses_hold(extend_all(bm, m).push(gate_value(false, bm, m)), clauses@, c0));
                    lemma_extend_all(bm, m);
                    assert(x[x.len() - 1] == any_true(bm, m));
                }
            }
            r
        },
        _ => {
            proof {
                assert(!skeleton(expr@, *old(next) as nat));
            }
            tru
        },
    }
}

pub proof fn lemma_all_proxies_take(ts: Seq<SBool>, i: int)
    requires
        0 <= i <= ts.len(),
    ensures
        all_proxies(ts.take(i)) <= all_proxies(ts),
        i > 0 ==> all_proxies(ts.take(i)) == all_proxies(ts.take(i - 1)) + proxies(ts[i - 1]),
    decreases ts.len(),
{
    if i > 0 {
        assert(ts.take(i).drop_last() =~= ts.take(i - 1));
        assert(ts.take(i).last() == ts[i - 1]);
    }
    if i < ts.len() {
        lemma_all_proxies_take(ts.drop_last(), i);
        assert(ts.drop_last().take(i) =~= ts.take(i));
    } else {
        assert(ts.take(i) =~= ts);
    }
}

} // verus!
