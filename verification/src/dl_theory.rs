//! Difference logic: constraints `to - from <= w` as a weighted graph.
//!
//! Each asserted constraint is an edge `from → to` of weight `w`. A set of
//! constraints is consistent exactly when the graph has no cycle of negative
//! weight; the theory keeps a potential (a distance per node) that certifies
//! this, and reports the literals of a negative cycle when one appears.
//! Bounds of a node are shortest-walk distances from and to the reference
//! node `0`.
use crate::rational::{
    lemma_inf_rational_wf, lemma_iratio_add_eqv, lemma_iratio_add_monotone, lemma_iratio_eqv,
    lemma_iratio_eqv_order, lemma_iratio_le_trans, lemma_iratio_trichotomy, lemma_add_zero,
    lemma_add_assoc, lemma_cancel_left, lemma_add_lowers, IRatio, InfRational,
};
use std::collections::VecDeque;
use vstd::prelude::*;

verus! {

broadcast use lemma_inf_rational_wf;

/// An edge `from → to` of weight `weight`, standing for `to - from <= weight`,
/// asserted under the SAT literal `literal`.
#[derive(Clone, Copy, Debug)]
pub struct DlEdge {
    pub to: usize,
    pub weight: InfRational,
    pub literal: usize,
}

/// The adjacency lists of a graph as sequences.
pub open spec fn adj(g: Seq<Vec<DlEdge>>) -> Seq<Seq<DlEdge>> {
    g.map_values(|r: Vec<DlEdge>| r@)
}

/// Edge `i` of node `u` exists.
pub open spec fn valid_edge(g: Seq<Seq<DlEdge>>, u: int, i: int) -> bool {
    0 <= u < g.len() && 0 <= i < g[u].len()
}

/// Every edge points to a node of the graph.
pub open spec fn targets_ok(g: Seq<Seq<DlEdge>>) -> bool {
    forall|u: int, i: int| #[trigger] valid_edge(g, u, i) ==> g[u][i].to < g.len()
}

/// Every edge has a finite weight.
pub open spec fn finite_weights(g: Seq<Seq<DlEdge>>) -> bool {
    forall|u: int, i: int| #[trigger] valid_edge(g, u, i) ==> g[u][i].weight@.real is Fin
}

/// `w`, a sequence of edges given as (node, index) pairs, is a walk from `s` to `t`.
pub open spec fn is_walk(g: Seq<Seq<DlEdge>>, s: int, t: int, w: Seq<(int, int)>) -> bool
    decreases w.len(),
{
    if w.len() == 0 {
        s == t
    } else {
        let (u, i) = w.last();
        valid_edge(g, u, i) && g[u][i].to == t && is_walk(g, s, u, w.drop_last())
    }
}

/// The total weight of a walk.
pub open spec fn walk_weight(g: Seq<Seq<DlEdge>>, w: Seq<(int, int)>) -> IRatio
    decreases w.len(),
{
    if w.len() == 0 {
        IRatio::of_int(0)
    } else {
        let (u, i) = w.last();
        walk_weight(g, w.drop_last()).add(g[u][i].weight@)
    }
}

/// `d` is the weight of a lightest walk from `s` to `t`: no walk is lighter,
/// a finite `d` is the weight of some walk, and `d` is `+∞` when no walk exists.
pub open spec fn is_shortest(g: Seq<Seq<DlEdge>>, s: int, t: int, d: IRatio) -> bool {
    &&& forall|w: Seq<(int, int)>| #[trigger] is_walk(g, s, t, w) ==> d.le(walk_weight(g, w))
    &&& d.real is Fin ==> exists|w: Seq<(int, int)>| #[trigger]
        is_walk(g, s, t, w) && d.eqv(walk_weight(g, w))
    &&& !(d.real is Fin) ==> d == IRatio::pos_inf()
}

/// Edge `i` of `u` satisfies the potential `d`: `d[to] <= d[u] + weight`.
pub open spec fn satisfied(g: Seq<Seq<DlEdge>>, d: Seq<InfRational>, u: int, i: int) -> bool {
    d[g[u][i].to as int]@.le(d[u]@.add(g[u][i].weight@))
}

/// Every edge out of a node with a finite value satisfies `d`.
pub open spec fn is_fixpoint(g: Seq<Seq<DlEdge>>, d: Seq<InfRational>) -> bool {
    forall|u: int, i: int|
        valid_edge(g, u, i) && d[u]@.real is Fin ==> #[trigger] satisfied(g, d, u, i)
}

/// A walk's weight is finite and well-formed when all weights are finite.
proof fn lemma_walk_weight_finite(g: Seq<Seq<DlEdge>>, s: int, t: int, w: Seq<(int, int)>)
    requires
        finite_weights(g),
        is_walk(g, s, t, w),
    ensures
        walk_weight(g, w).real is Fin,
        walk_weight(g, w).wf(),
    decreases w.len(),
{
    if w.len() > 0 {
        let (u, i) = w.last();
        lemma_walk_weight_finite(g, s, u, w.drop_last());
        assert(valid_edge(g, u, i));
        lemma_iratio_add_monotone(walk_weight(g, w.drop_last()), walk_weight(g, w.drop_last()), g[u][i].weight@);
    }
}

/// At a fixpoint with `d[s] <= 0`, no walk from `s` is lighter than `d` at its end.
proof fn lemma_walk_lower_bound(
    g: Seq<Seq<DlEdge>>,
    d: Seq<InfRational>,
    s: int,
    t: int,
    w: Seq<(int, int)>,
)
    requires
        finite_weights(g),
        targets_ok(g),
        d.len() == g.len(),
        0 <= s < g.len(),
        d[s]@.le(IRatio::of_int(0)),
        forall|v: int| 0 <= v < d.len() ==> !(#[trigger] d[v]@.real is NegInf),
        is_fixpoint(g, d),
        is_walk(g, s, t, w),
    ensures
        d[t]@.le(walk_weight(g, w)),
    decreases w.len(),
{
    if w.len() > 0 {
        let (u, i) = w.last();
        let w0 = w.drop_last();
        assert(valid_edge(g, u, i));
        lemma_walk_lower_bound(g, d, s, u, w0);
        lemma_walk_weight_finite(g, s, u, w0);
        let wt = g[u][i].weight@;
        let ww = walk_weight(g, w0);
        assert(d[u]@.real is Fin);
        assert(satisfied(g, d, u, i));
        lemma_iratio_add_monotone(d[u]@, ww, wt);
        lemma_iratio_add_monotone(ww, ww, wt);
        lemma_iratio_le_trans(d[t]@, d[u]@.add(wt), ww.add(wt));
    }
}

/// Appending `x` adds exactly `x` to the elements of `q`.
proof fn lemma_push_contains(q: Seq<usize>, x: usize)
    ensures
        forall|v: usize| #[trigger] q.push(x).contains(v) <==> (q.contains(v) || v == x),
{
    assert forall|v: usize| #[trigger] q.push(x).contains(v) <==> (q.contains(v) || v == x) by {
        let p = q.push(x);
        if q.contains(v) {
            let k = choose|k: int| 0 <= k < q.len() && q[k] == v;
            assert(p[k] == v);
        }
        if v == x {
            assert(p[q.len() as int] == v);
        }
        if p.contains(v) {
            let k = choose|k: int| 0 <= k < p.len() && p[k] == v;
            if k < q.len() {
                assert(q[k] == v);
            }
        }
    }
}

/// Lightest-walk distances from `source` to every node, by queue-driven
/// relaxation. `None` when an intermediate sum overflows or when the search
/// has not settled within `n² + n + 1` steps.
fn shortest_from(g: &Vec<Vec<DlEdge>>, source: usize) -> (r: Option<Vec<InfRational>>)
    requires
        source < g.len(),
        targets_ok(adj(g@)),
        finite_weights(adj(g@)),
    ensures
        r matches Some(d) ==> {
            &&& d.len() == g.len()
            &&& forall|t: int| 0 <= t < d.len() ==> is_shortest(adj(g@), source as int, t, #[trigger] d[t]@)
        },
{
    let ghost gg = adj(g@);
    let n = g.len();
    let mut dists: Vec<InfRational> = Vec::new();
    let mut in_queue: Vec<bool> = Vec::new();
    let mut k: usize = 0;
    while k < n
        invariant
            k <= n,
            dists.len() == k,
            in_queue.len() == k,
            forall|v: int| 0 <= v < k ==> #[trigger] dists[v]@ == IRatio::pos_inf(),
            forall|v: int| 0 <= v < k ==> !#[trigger] in_queue[v],
        decreases n - k,
    {
        dists.push(InfRational::positive_inf());
        in_queue.push(false);
        k = k + 1;
    }
    dists.set(source, InfRational::zero());
    in_queue.set(source, true);
    let mut queue: VecDeque<usize> = VecDeque::new();
    queue.push_back(source);
    let ghost mut wit: Seq<Seq<(int, int)>> = Seq::new(n as nat, |v: int| Seq::<(int, int)>::empty());
    let mut fuel: usize = match n.checked_mul(n) {
        Some(m) => match m.checked_add(n) {
            Some(f) => match f.checked_add(1) {
                Some(h) => h,
                None => usize::MAX,
            },
            None => usize::MAX,
        },
        None => usize::MAX,
    };
    proof {
        lemma_push_contains(Seq::<usize>::empty(), source);
        assert(Seq::<usize>::empty().push(source) == queue@);
        assert(is_walk(gg, source as int, source as int, wit[source as int]));
        lemma_iratio_eqv(dists[source as int]@, dists[source as int]@, dists[source as int]@);
        assert(forall|u: int, i: int|
            valid_edge(gg, u, i) && !in_queue[u] && dists[u]@.real is Fin ==> #[trigger] satisfied(gg, dists@, u, i));
    }
    loop
        invariant
            gg == adj(g@),
            targets_ok(gg),
            finite_weights(gg),
            n == g.len(),
            source < n,
            dists.len() == n,
            in_queue.len() == n,
            wit.len() == n,
            queue@.no_duplicates(),
            forall|k: int| 0 <= k < queue@.len() ==> #[trigger] queue@[k] < n,
            forall|v: int| 0 <= v < n ==> (#[trigger] in_queue[v] <==> queue@.contains(v as usize)),
            dists[source as int]@.le(IRatio::of_int(0)),
            forall|v: int| 0 <= v < n ==> !(#[trigger] dists[v]@.real is NegInf),
            forall|v: int|
                0 <= v < n && (#[trigger] dists[v]@).real is Fin ==> is_walk(gg, source as int, v, wit[v])
                    && dists[v]@.eqv(walk_weight(gg, wit[v])),
            forall|v: int| 0 <= v < n && !((#[trigger] dists[v]@).real is Fin) ==> dists[v]@ == IRatio::pos_inf(),
            forall|u: int, i: int|
                valid_edge(gg, u, i) && !in_queue[u] && dists[u]@.real is Fin ==> #[trigger] satisfied(gg, dists@, u, i),
        ensures
            queue@.len() == 0,
        decreases fuel,
    {
        if fuel == 0 {
            return None;
        }
        fuel = fuel - 1;
        let ghost q0 = queue@;
        let popped = queue.pop_front();
        let u = match popped {
            Some(u) => u,
            None => break,
        };
        proof {
            assert(u == popped->0);
        }
        in_queue.set(u, false);
        proof {
            assert(q0 == seq![u].add(queue@));
            assert forall|v: int| 0 <= v < n implies (#[trigger] in_queue[v] <==> queue@.contains(v as usize)) by {
                if queue@.contains(v as usize) {
                    let k = choose|k: int| 0 <= k < queue@.len() && queue@[k] == v as usize;
                    assert(q0[k + 1] == v as usize);
                    if v == u {
                        assert(q0[0] == q0[k + 1]);
                    }
                }
                if v != u && q0.contains(v as usize) {
                    let k = choose|k: int| 0 <= k < q0.len() && q0[k] == v as usize;
                    assert(k > 0);
                    assert(queue@[k - 1] == v as usize);
                }
            }
            assert forall|k: int| 0 <= k < queue@.len() implies #[trigger] queue@[k] < n by {
                assert(queue@[k] == q0[k + 1]);
            }
            assert(queue@.no_duplicates()) by {
                assert forall|a: int, b: int| 0 <= a < b < queue@.len() implies queue@[a] != queue@[b] by {
                    assert(queue@[a] == q0[a + 1]);
                    assert(queue@[b] == q0[b + 1]);
                }
            }
        }
        let len = g[u].len();
        let mut j: usize = 0;
        while j < len
            invariant
                gg == adj(g@),
                targets_ok(gg),
                finite_weights(gg),
                n == g.len(),
                source < n,
                u < n,
                len == gg[u as int].len(),
                j <= len,
                dists.len() == n,
                in_queue.len() == n,
                wit.len() == n,
                queue@.no_duplicates(),
                forall|k: int| 0 <= k < queue@.len() ==> #[trigger] queue@[k] < n,
                forall|v: int| 0 <= v < n ==> (#[trigger] in_queue[v] <==> queue@.contains(v as usize)),
                dists[source as int]@.le(IRatio::of_int(0)),
                forall|v: int| 0 <= v < n ==> !(#[trigger] dists[v]@.real is NegInf),
                forall|v: int|
                    0 <= v < n && (#[trigger] dists[v]@).real is Fin ==> is_walk(gg, source as int, v, wit[v])
                        && dists[v]@.eqv(walk_weight(gg, wit[v])),
                forall|v: int| 0 <= v < n && !((#[trigger] dists[v]@).real is Fin) ==> dists[v]@ == IRatio::pos_inf(),
                forall|x: int, i: int|
                    valid_edge(gg, x, i) && !in_queue[x] && dists[x]@.real is Fin && !(x == u && i >= j)
                        ==> #[trigger] satisfied(gg, dists@, x, i),
            decreases len - j,
        {
            let e = g[u][j];
            proof {
                assert(valid_edge(gg, u as int, j as int));
                assert(e == gg[u as int][j as int]);
            }
            let next = e.to;
            let relaxed = match dists[u].checked_add(&e.weight) {
                Some(x) => x,
                None => return None,
            };
            let ghost old_d = dists@;
            let ghost du = dists[u as int]@;
            let ghost wt = e.weight@;
            if relaxed.lt(&dists[next]) {
                proof {
                    // `relaxed` is finite, so the value at `u` is finite too
                    assert(du.real is Fin);
                    lemma_iratio_add_monotone(du, du, wt);
                    lemma_iratio_eqv(relaxed@, du.add(wt), du.add(wt));
                }
                dists.set(next, relaxed);
                proof {
                    let wu = wit[u as int];
                    let wn = wu.push((u as int, j as int));
                    assert(wn.drop_last() =~= wu);
                    assert(is_walk(gg, source as int, next as int, wn));
                    lemma_walk_weight_finite(gg, source as int, u as int, wu);
                    lemma_iratio_eqv(walk_weight(gg, wu), walk_weight(gg, wu), walk_weight(gg, wu));
                    lemma_iratio_eqv(wt, wt, wt);
                    lemma_iratio_add_eqv(du, walk_weight(gg, wu), wt, wt);
                    lemma_iratio_add_monotone(walk_weight(gg, wu), walk_weight(gg, wu), wt);
                    lemma_iratio_eqv(relaxed@, du.add(wt), walk_weight(gg, wn));
                    wit = wit.update(next as int, wn);
                }
                if !in_queue[next] {
                    let ghost q1 = queue@;
                    queue.push_back(next);
                    in_queue.set(next, true);
                    proof {
                        lemma_push_contains(q1, next);
                        assert forall|k: int| 0 <= k < queue@.len() implies #[trigger] queue@[k] < n by {
                            if k < q1.len() {
                                assert(queue@[k] == q1[k]);
                            }
                        }
                        assert(queue@.no_duplicates()) by {
                            assert forall|a: int, b: int| 0 <= a < b < queue@.len() implies queue@[a] != queue@[b] by {
                                if b == q1.len() {
                                    assert(q1.contains(queue@[a]));
                                } else {
                                    assert(queue@[a] == q1[a]);
                                    assert(queue@[b] == q1[b]);
                                }
                            }
                        }
                    }
                }
                proof {
                    lemma_iratio_trichotomy(relaxed@, old_d[next as int]@);
                    if next == source {
                        lemma_iratio_le_trans(relaxed@, old_d[source as int]@, IRatio::of_int(0));
                    }
                    assert forall|v: int| 0 <= v < n implies (#[trigger] in_queue[v] <==> queue@.contains(v as usize)) by {
                        if v != next {
                            assert(old_d[v] == dists@[v]);
                        }
                    }
                    assert forall|x: int, i: int|
                        valid_edge(gg, x, i) && !in_queue[x] && dists[x]@.real is Fin && !(x == u && i >= j + 1)
                        implies #[trigger] satisfied(gg, dists@, x, i) by {
                        let to = gg[x][i].to as int;
                        assert(x != next);
                        assert(dists@[x] == old_d[x]);
                        if x == u && i == j {
                            lemma_iratio_eqv(relaxed@, du.add(wt), du.add(wt));
                            lemma_iratio_eqv_order(relaxed@, du.add(wt), du.add(wt));
                        } else {
                            assert(satisfied(gg, old_d, x, i));
                            if to == next {
                                lemma_iratio_add_monotone(old_d[x]@, old_d[x]@, gg[x][i].weight@);
                                lemma_iratio_le_trans(relaxed@, old_d[next as int]@, old_d[x]@.add(gg[x][i].weight@));
                            } else {
                                assert(dists@[to] == old_d[to]);
                            }
                        }
                    }
                }
            } else {
                proof {
                    if du.real is Fin {
                        lemma_iratio_add_monotone(du, du, wt);
                        lemma_iratio_trichotomy(relaxed@, dists[next as int]@);
                        lemma_iratio_eqv(relaxed@, du.add(wt), dists[next as int]@);
                        lemma_iratio_eqv_order(relaxed@, du.add(wt), dists[next as int]@);
                        assert(satisfied(gg, dists@, u as int, j as int));
                    }
                }
            }
            j = j + 1;
        }
    }
    proof {
        assert forall|v: int| 0 <= v < n implies !(#[trigger] in_queue[v]) by {
            assert(queue@.len() == 0);
        }
        assert(is_fixpoint(gg, dists@));
        assert forall|t: int| 0 <= t < dists.len() implies is_shortest(gg, source as int, t, #[trigger] dists[t]@) by {
            assert forall|w: Seq<(int, int)>| #[trigger] is_walk(gg, source as int, t, w) implies dists[t]@.le(walk_weight(gg, w)) by {
                lemma_walk_lower_bound(gg, dists@, source as int, t, w);
            }
            if dists[t]@.real is Fin {
                assert(is_walk(gg, source as int, t, wit[t]) && dists[t]@.eqv(walk_weight(gg, wit[t])));
            }
        }
    }
    Some(dists)
}

/// The graph built by asserting the edges of `log` in order over `n` nodes.
pub open spec fn graph_of(n: nat, log: Seq<(usize, DlEdge)>) -> Seq<Seq<DlEdge>>
    decreases log.len(),
{
    if log.len() == 0 {
        Seq::new(n, |i: int| Seq::<DlEdge>::empty())
    } else {
        let g = graph_of(n, log.drop_last());
        let (f, e) = log.last();
        g.update(f as int, g[f as int].push(e))
    }
}

/// Every edge satisfies the potential `d`: `d[to] <= d[from] + weight`.
/// Such a potential exists exactly when the graph has no negative cycle.
pub open spec fn is_potential(g: Seq<Seq<DlEdge>>, d: Seq<InfRational>) -> bool {
    forall|u: int, i: int| valid_edge(g, u, i) ==> #[trigger] satisfied(g, d, u, i)
}

/// `r` holds the edges of `g` reversed: `u → v` in `g` iff `v → u` in `r`,
/// with the same weight.
pub open spec fn is_reverse(g: Seq<Seq<DlEdge>>, r: Seq<Seq<DlEdge>>) -> bool {
    &&& r.len() == g.len()
    &&& forall|v: int, k: int| #[trigger] valid_edge(r, v, k) ==> exists|i: int| #[trigger]
        valid_edge(g, r[v][k].to as int, i) && g[r[v][k].to as int][i].to == v
            && g[r[v][k].to as int][i].weight == r[v][k].weight
    &&& forall|u: int, i: int| #[trigger] valid_edge(g, u, i) ==> exists|k: int| #[trigger]
        valid_edge(r, g[u][i].to as int, k) && r[g[u][i].to as int][k].to == u
            && r[g[u][i].to as int][k].weight == g[u][i].weight
}

proof fn lemma_graph_of_len(n: nat, log: Seq<(usize, DlEdge)>)
    requires
        forall|k: int| 0 <= k < log.len() ==> (#[trigger] log[k]).0 < n,
    ensures
        graph_of(n, log).len() == n,
    decreases log.len(),
{
    if log.len() > 0 {
        let l0 = log.drop_last();
        assert forall|k: int| 0 <= k < l0.len() implies (#[trigger] l0[k]).0 < n by {
            assert(l0[k] == log[k]);
        }
        lemma_graph_of_len(n, l0);
        assert(log.last() == log[log.len() - 1]);
    }
}

/// Adding a node leaves the existing adjacency lists alone.
proof fn lemma_graph_of_grow(n: nat, log: Seq<(usize, DlEdge)>)
    requires
        forall|k: int| 0 <= k < log.len() ==> (#[trigger] log[k]).0 < n,
    ensures
        graph_of(n + 1, log) == graph_of(n, log).push(Seq::<DlEdge>::empty()),
    decreases log.len(),
{
    lemma_graph_of_len(n, log);
    assert forall|k: int| 0 <= k < log.len() implies (#[trigger] log[k]).0 < n + 1 by {}
    lemma_graph_of_len(n + 1, log);
    if log.len() == 0 {
        assert(graph_of(n + 1, log) =~= graph_of(n, log).push(Seq::<DlEdge>::empty()));
    } else {
        let l0 = log.drop_last();
        assert forall|k: int| 0 <= k < l0.len() implies (#[trigger] l0[k]).0 < n by {
            assert(l0[k] == log[k]);
        }
        lemma_graph_of_grow(n, l0);
        lemma_graph_of_len(n, l0);
        assert forall|k: int| 0 <= k < l0.len() implies (#[trigger] l0[k]).0 < n + 1 by {}
        lemma_graph_of_len(n + 1, l0);
        assert(log.last() == log[log.len() - 1]);
        assert(graph_of(n + 1, log) =~= graph_of(n, log).push(Seq::<DlEdge>::empty()));
    }
}

/// Edge `i` of `x` was already violated by `d0` before the last edge of `su`
/// was added, and is not that edge.
pub open spec fn excused(g: Seq<Seq<DlEdge>>, d0: Seq<InfRational>, su: int, x: int, i: int) -> bool {
    !satisfied(g, d0, x, i) && !(x == su && i == g[su].len() - 1)
}

/// `d[v]` was lowered below `d0[v]` along a walk from `su`: some walk from
/// `su` to `v` has `d0[su] + weight <= d[v]`.
pub open spec fn lowered(g: Seq<Seq<DlEdge>>, d0: Seq<InfRational>, su: int, d: Seq<InfRational>, v: int) -> bool {
    &&& d[v]@.lt(d0[v]@)
    &&& exists|w: Seq<(int, int)>| #[trigger] is_walk(g, su, v, w) && d0[su]@.add(walk_weight(g, w)).le(d[v]@)
}

/// The parent entry of `v` names an edge into `v` and its literal, from
/// `su` or from a node lowered as well.
pub open spec fn parent_ok(
    g: Seq<Seq<DlEdge>>,
    d0: Seq<InfRational>,
    su: int,
    d: Seq<InfRational>,
    par: Seq<Option<(usize, usize)>>,
    v: int,
) -> bool {
    match par[v] {
        Some((u, lit)) => (u == su || lowered(g, d0, su, d, u as int)) && exists|i: int|
            #[trigger] valid_edge(g, u as int, i) && g[u as int][i].to == v && g[u as int][i].literal == lit,
        None => false,
    }
}

/// `l` is the literal of an edge of `g`.
pub open spec fn edge_literal(g: Seq<Seq<DlEdge>>, l: usize) -> bool {
    exists|u: int, i: int| #[trigger] valid_edge(g, u, i) && g[u][i].literal == l
}

/// Following parent entries from a lowered node (or `su`) meets only
/// literals of edges.
proof fn lemma_nogood_edges(
    g: Seq<Seq<DlEdge>>,
    d0: Seq<InfRational>,
    su: int,
    d: Seq<InfRational>,
    par: Seq<Option<(usize, usize)>>,
    curr: usize,
    fuel: nat,
)
    requires
        0 <= su,
        par.len() == g.len(),
        curr < g.len(),
        curr == su || lowered(g, d0, su, d, curr as int),
        lowered(g, d0, su, d, su),
        forall|v: int| 0 <= v < g.len() && #[trigger] lowered(g, d0, su, d, v) ==> parent_ok(g, d0, su, d, par, v),
    ensures
        forall|k: int| 0 <= k < nogood_from(par, su as usize, curr, fuel).len() ==> edge_literal(
            g,
            #[trigger] nogood_from(par, su as usize, curr, fuel)[k],
        ),
    decreases fuel,
{
    if fuel > 0 {
        assert(parent_ok(g, d0, su, d, par, curr as int));
        let (p, lit) = par[curr as int]->Some_0;
        assert(par[curr as int] == Some((p, lit)));
        let i = choose|i: int|
            #[trigger] valid_edge(g, p as int, i) && g[p as int][i].to == curr && g[p as int][i].literal == lit;
        assert(edge_literal(g, lit));
        if p != su {
            assert(p < g.len()) by {
                assert(valid_edge(g, p as int, i));
            }
            lemma_nogood_edges(g, d0, su, d, par, p, (fuel - 1) as nat);
            let rest = nogood_from(par, su as usize, p, (fuel - 1) as nat);
            assert(nogood_from(par, su as usize, curr, fuel) =~= seq![lit] + rest);
            assert forall|k: int| 0 <= k < nogood_from(par, su as usize, curr, fuel).len() implies edge_literal(
                g,
                #[trigger] nogood_from(par, su as usize, curr, fuel)[k],
            ) by {
                if k > 0 {
                    assert(nogood_from(par, su as usize, curr, fuel)[k] == rest[k - 1]);
                }
            }
        } else {
            assert(nogood_from(par, su as usize, curr, fuel) =~= seq![lit]);
        }
    }
}

/// A closed walk of negative weight leaves no finite potential: no
/// assignment of the nodes satisfies every edge.
pub proof fn law_negative_cycle_refutes(g: Seq<Seq<DlEdge>>, s: int, w: Seq<(int, int)>)
    requires
        finite_weights(g),
        targets_ok(g),
        0 <= s < g.len(),
        is_walk(g, s, s, w),
        walk_weight(g, w).lt(IRatio::of_int(0)),
    ensures
        forall|d: Seq<InfRational>|
            d.len() == g.len() && (forall|v: int| 0 <= v < d.len() ==> (#[trigger] d[v])@.real is Fin)
                ==> !#[trigger] is_potential(g, d),
{
    assert forall|d: Seq<InfRational>|
        d.len() == g.len() && (forall|v: int| 0 <= v < d.len() ==> (#[trigger] d[v])@.real is Fin)
            implies !#[trigger] is_potential(g, d) by {
        if is_potential(g, d) {
            lemma_potential_no_negative_cycle(g, d, s, w);
            lemma_walk_weight_finite(g, s, s, w);
            lemma_iratio_trichotomy(walk_weight(g, w), IRatio::of_int(0));
        }
    }
}

/// The walk extended by one edge: its weight grows by the edge's, so the
/// bound `d0[su] + weight <= dc` carries over to the edge's target.
proof fn lemma_lowered_step(g: Seq<Seq<DlEdge>>, su: int, u: int, i: int, w: Seq<(int, int)>, base: IRatio, dc: IRatio, relaxed: IRatio)
    requires
        finite_weights(g),
        is_walk(g, su, u, w),
        valid_edge(g, u, i),
        base.wf(),
        base.real is Fin,
        dc.wf(),
        relaxed.wf(),
        base.add(walk_weight(g, w)).le(dc),
        relaxed.eqv(dc.add(g[u][i].weight@)),
    ensures
        is_walk(g, su, g[u][i].to as int, w.push((u, i))),
        base.add(walk_weight(g, w.push((u, i)))).le(relaxed),
{
    let w2 = w.push((u, i));
    assert(w2.drop_last() =~= w);
    assert(w2.last() == (u, i));
    lemma_walk_weight_finite(g, su, u, w);
    let ww = walk_weight(g, w);
    let we = g[u][i].weight@;
    assert(we.real is Fin);
    assert(walk_weight(g, w2) == ww.add(we));
    lemma_iratio_add_monotone(base, base, ww);
    lemma_iratio_add_monotone(base.add(ww), dc, we);
    lemma_add_assoc(base, ww, we);
    lemma_iratio_add_monotone(ww, ww, we);
    lemma_iratio_add_monotone(base, base, ww.add(we));
    lemma_iratio_add_monotone(dc, dc, we);
    lemma_iratio_eqv(relaxed, dc.add(we), dc.add(we));
    lemma_iratio_eqv_order(dc.add(we), relaxed, base.add(ww).add(we));
    lemma_iratio_eqv_order(base.add(ww).add(we), base.add(ww.add(we)), relaxed);
}

/// Popping the front of a queue without duplicates keeps it free of
/// duplicates and within bounds.
proof fn lemma_pop_front_bookkeeping(q0: Seq<usize>, q: Seq<usize>, x: usize, flags: Seq<bool>, n: int)
    requires
        q0 == seq![x].add(q),
        q0.no_duplicates(),
        forall|k: int| 0 <= k < q0.len() ==> #[trigger] q0[k] < n,
    ensures
        q.no_duplicates(),
        forall|k: int| 0 <= k < q.len() ==> #[trigger] q[k] < n,
        !q.contains(x),
{
    assert forall|k: int| 0 <= k < q.len() implies #[trigger] q[k] < n by {
        assert(q[k] == q0[k + 1]);
    }
    assert forall|a: int, b: int| 0 <= a < b < q.len() implies q[a] != q[b] by {
        assert(q[a] == q0[a + 1]);
        assert(q[b] == q0[b + 1]);
    }
    if q.contains(x) {
        let k = choose|k: int| 0 <= k < q.len() && q[k] == x;
        assert(q0[k + 1] == q0[0]);
    }
}

/// The node a parent entry points back to (`0` for none).
pub open spec fn parent_node(p: Option<(usize, usize)>) -> usize {
    match p {
        Some((q, _)) => q,
        None => 0,
    }
}

/// The literals met following parent entries from `curr`, at most `fuel`
/// of them, stopping after the entry that leads back to `start` or at a node
/// without a parent.
pub open spec fn nogood_from(par: Seq<Option<(usize, usize)>>, start: usize, curr: usize, fuel: nat) -> Seq<usize>
    decreases fuel,
{
    if fuel == 0 {
        Seq::empty()
    } else {
        match par[curr as int] {
            None => Seq::empty(),
            Some((p, lit)) => if p == start {
                seq![lit]
            } else {
                seq![lit] + nogood_from(par, start, p, (fuel - 1) as nat)
            },
        }
    }
}

/// Why an assertion could not be accepted.
#[derive(Debug, PartialEq, Eq)]
pub enum DlError {
    /// The new edge closes a negative cycle; the literals of its edges.
    NegativeCycle(Vec<usize>),
    /// The search did not finish: a sum left 64-bit fractions, or the step
    /// limit was reached.
    Unresolved,
}

/// The difference-logic theory: a graph of asserted edges, a trail of the
/// nodes they leave from (for backtracking) and a potential over the nodes.
pub struct DlTheory {
    graph: Vec<Vec<DlEdge>>,
    history: Vec<usize>,
    distances: Vec<InfRational>,
    parents: Vec<Option<(usize, usize)>>,
    log: Ghost<Seq<(usize, DlEdge)>>,
}

impl DlTheory {
    /// The adjacency lists.
    pub closed spec fn edges(&self) -> Seq<Seq<DlEdge>> {
        adj(self.graph@)
    }

    /// The asserted edges, oldest first, with the node each leaves from.
    pub closed spec fn trail(&self) -> Seq<(usize, DlEdge)> {
        self.log@
    }

    /// The potential kept over the nodes.
    pub closed spec fn potential(&self) -> Seq<InfRational> {
        self.distances@
    }

    /// The parent entries: for a node, the node and literal of the edge that
    /// last lowered its potential.
    pub closed spec fn parent_entries(&self) -> Seq<Option<(usize, usize)>> {
        self.parents@
    }

    pub closed spec fn num_nodes(&self) -> nat {
        self.graph@.len()
    }

    pub closed spec fn wf(&self) -> bool {
        let n = self.graph@.len();
        &&& self.distances@.len() == n
        &&& self.parents@.len() == n
        &&& targets_ok(adj(self.graph@))
        &&& finite_weights(adj(self.graph@))
        &&& forall|v: int| 0 <= v < n ==> (#[trigger] self.distances@[v])@.real is Fin
        &&& forall|v: int| 0 <= v < n ==> parent_node(#[trigger] self.parents@[v]) < n
        &&& self.history@.len() == self.log@.len()
        &&& forall|k: int| 0 <= k < self.log@.len() ==> #[trigger] self.history@[k] == self.log@[k].0
        &&& forall|k: int| 0 <= k < self.log@.len() ==> (#[trigger] self.log@[k]).0 < n
        &&& adj(self.graph@) == graph_of(n, self.log@)
    }

    /// In a consistent theory the adjacency lists are the asserted edges,
    /// each under the node it leaves from.
    pub proof fn lemma_edges_of_trail(&self)
        requires
            self.wf(),
        ensures
            self.edges() == graph_of(self.num_nodes(), self.trail()),
    {
    }

    /// Law: two consistent theories over the same nodes with the same trail
    /// have the same edges; so cancelling back to the length of an earlier
    /// trail gives back the edges of that moment.
    pub proof fn lemma_same_trail_same_edges(a: DlTheory, b: DlTheory)
        requires
            a.wf(),
            b.wf(),
            a.num_nodes() == b.num_nodes(),
            a.trail() == b.trail(),
        ensures
            a.edges() == b.edges(),
    {
    }

    /// An empty theory.
    pub fn new() -> (r: DlTheory)
        ensures
            r.wf(),
            r.num_nodes() == 0,
            r.trail() == Seq::<(usize, DlEdge)>::empty(),
            r.edges() == Seq::<Seq<DlEdge>>::empty(),
            r.potential() == Seq::<InfRational>::empty(),
            r.parent_entries() == Seq::<Option<(usize, usize)>>::empty(),
    {
        let r = DlTheory {
            graph: Vec::new(),
            history: Vec::new(),
            distances: Vec::new(),
            parents: Vec::new(),
            log: Ghost(Seq::empty()),
        };
        proof {
            assert(adj(r.graph@) =~= graph_of(0, r.log@));
        }
        r
    }

    /// Adds a node with no edges; returns its index. The first node is the
    /// reference point `0`.
    pub fn new_var(&mut self) -> (r: usize)
        requires
            old(self).wf(),
            old(self).num_nodes() < usize::MAX,
        ensures
            final(self).wf(),
            r == old(self).num_nodes(),
            final(self).num_nodes() == old(self).num_nodes() + 1,
            final(self).edges() == old(self).edges().push(Seq::<DlEdge>::empty()),
            final(self).trail() == old(self).trail(),
            final(self).potential() == old(self).potential().push(InfRational::zero_spec()),
            final(self).parent_entries() == old(self).parent_entries().push(None),
    {
        let id = self.graph.len();
        let ghost n = id as nat;
        proof {
            lemma_graph_of_grow(n, self.log@);
        }
        self.graph.push(Vec::new());
        self.distances.push(InfRational::zero());
        self.parents.push(None);
        proof {
            assert(adj(self.graph@) =~= adj(old(self).graph@).push(Seq::<DlEdge>::empty()));
            assert forall|u: int, i: int| #[trigger] valid_edge(adj(self.graph@), u, i) implies adj(
                self.graph@,
            )[u][i].to < self.graph@.len() && adj(self.graph@)[u][i].weight@.real is Fin by {
                assert(valid_edge(adj(old(self).graph@), u, i));
            }
        }
        id
    }

    /// Removes the most recent edges until `target_len` remain.
    pub fn cancel_until(&mut self, target_len: usize)
        requires
            old(self).wf(),
        ensures
            final(self).wf(),
            final(self).num_nodes() == old(self).num_nodes(),
            final(self).potential() == old(self).potential(),
            target_len >= old(self).trail().len() ==> final(self).trail() == old(self).trail(),
            target_len < old(self).trail().len() ==> final(self).trail() == old(self).trail().take(
                target_len as int,
            ),
            final(self).edges() == graph_of(final(self).num_nodes(), final(self).trail()),
            final(self).parent_entries() == old(self).parent_entries(),
    {
        let ghost n = self.graph@.len();
        proof {
            assert(self.log@ =~= self.log@.take(self.log@.len() as int));
        }
        while self.history.len() > target_len
            invariant
                self.wf(),
                target_len >= old(self).trail().len() ==> self.log@.len() == old(self).log@.len(),
                self.graph@.len() == n,
                self.distances@ == old(self).distances@,
                self.parents@ == old(self).parents@,
                self.history@.len() <= old(self).history@.len(),
                self.log@.len() <= old(self).log@.len(),
                self.log@ == old(self).log@.take(self.log@.len() as int),
                target_len < old(self).trail().len() ==> target_len <= self.history@.len(),
            decreases self.history.len(),
        {
            let ghost l = self.log@;
            let ghost l0 = l.drop_last();
            let from = self.history.pop().unwrap();
            proof {
                assert(from == l.last().0);
                assert forall|k: int| 0 <= k < l0.len() implies (#[trigger] l0[k]).0 < n by {
                    assert(l0[k] == l[k]);
                }
                lemma_graph_of_len(n, l0);
                assert(valid_edge(graph_of(n, l), from as int, graph_of(n, l)[from as int].len() - 1));
            }
            let ghost gl = adj(self.graph@);
            self.graph[from].pop();
            proof {
                self.log@ = l0;
                let g0 = graph_of(n, l0);
                assert(gl == g0.update(from as int, g0[from as int].push(l.last().1)));
                assert(g0[from as int].push(l.last().1).drop_last() =~= g0[from as int]);
                assert forall|v: int| 0 <= v < n implies #[trigger] adj(self.graph@)[v] == g0[v] by {
                    if v == from {
                        assert(adj(self.graph@)[v] =~= gl[v].drop_last());
                    } else {
                        assert(adj(self.graph@)[v] == gl[v]);
                    }
                }
                assert(adj(self.graph@) =~= graph_of(n, self.log@));
                assert forall|u: int, i: int| #[trigger] valid_edge(adj(self.graph@), u, i) implies adj(
                    self.graph@,
                )[u][i].to < n && adj(self.graph@)[u][i].weight@.real is Fin by {
                    if u == from {
                        assert(adj(self.graph@)[u][i] == graph_of(n, l)[u][i]);
                    }
                    assert(valid_edge(graph_of(n, l), u, i));
                }
                assert(l == old(self).log@.take(l.len() as int));
                assert forall|k: int| 0 <= k < l0.len() implies #[trigger] l0[k] == old(self).log@.take(l0.len() as int)[k] by {
                    assert(l0[k] == l[k]);
                    assert(l[k] == old(self).log@[k]);
                }
                assert(l0 =~= old(self).log@.take(l0.len() as int));
            }
        }
        proof {
            if target_len >= old(self).trail().len() {
                assert(self.log@ =~= old(self).log@);
            }
        }
    }

    /// Lightest-walk distances from `source` to every node.
    pub fn exact_distances_from(&self, source: usize) -> (r: Option<Vec<InfRational>>)
        requires
            self.wf(),
            source < self.num_nodes(),
        ensures
            r matches Some(d) ==> {
                &&& d.len() == self.num_nodes()
                &&& forall|t: int| 0 <= t < d.len() ==> is_shortest(self.edges(), source as int, t, #[trigger] d[t]@)
            },
    {
        shortest_from(&self.graph, source)
    }

    /// Lightest-walk distances from `source` in the reversed graph, that is
    /// the distances from every node to `source`.
    pub fn exact_distances_from_reversed(&self, source: usize) -> (r: Option<Vec<InfRational>>)
        requires
            self.wf(),
            source < self.num_nodes(),
        ensures
            r matches Some(d) ==> {
                &&& d.len() == self.num_nodes()
                &&& exists|rev: Seq<Seq<DlEdge>>| #[trigger] is_reverse(self.edges(), rev)
                    && forall|t: int| 0 <= t < d.len() ==> is_shortest(rev, source as int, t, #[trigger] d[t]@)
            },
    {
        let rev = self.reversed();
        let r = shortest_from(&rev, source);
        proof {
            assert(is_reverse(self.edges(), adj(rev@)));
        }
        r
    }

    /// Lightest-walk distance from node `0` to `var`, the upper bound of `var`.
    /// `None` when the search does not finish.
    pub fn ub(&self, var: usize) -> (r: Option<InfRational>)
        requires
            self.wf(),
            var < self.num_nodes(),
        ensures
            r matches Some(x) ==> is_shortest(self.edges(), 0, var as int, x@),
    {
        match shortest_from(&self.graph, 0) {
            Some(d) => Some(d[var]),
            None => None,
        }
    }

    /// Upper bounds of all nodes: lightest-walk distances from node `0`.
    pub fn ubs(&self) -> (r: Option<Vec<InfRational>>)
        requires
            self.wf(),
            self.num_nodes() > 0,
        ensures
            r matches Some(d) ==> {
                &&& d.len() == self.num_nodes()
                &&& forall|t: int| 0 <= t < d.len() ==> is_shortest(self.edges(), 0, t, #[trigger] d[t]@)
            },
    {
        shortest_from(&self.graph, 0)
    }

    /// Lightest-walk distance from `from` to `to`.
    pub fn exact_distance(&self, from: usize, to: usize) -> (r: Option<InfRational>)
        requires
            self.wf(),
            from < self.num_nodes(),
            to < self.num_nodes(),
        ensures
            r matches Some(x) ==> is_shortest(self.edges(), from as int, to as int, x@),
    {
        match shortest_from(&self.graph, from) {
            Some(d) => Some(d[to]),
            None => None,
        }
    }

    /// The lower bound of `var`: minus the lightest-walk distance from `var` to node `0`.
    pub fn lb(&self, var: usize) -> (r: Option<InfRational>)
        requires
            self.wf(),
            var < self.num_nodes(),
            self.num_nodes() > 0,
        ensures
            r matches Some(x) ==> is_shortest(self.edges(), var as int, 0, x@.neg()),
    {
        match shortest_from(&self.graph, var) {
            Some(d) => {
                let x = d[0].neg();
                proof {
                    crate::rational::lemma_iratio_neg_neg(d[0]@);
                }
                Some(x)
            },
            None => None,
        }
    }

    /// The graph with every edge reversed.
    fn reversed(&self) -> (r: Vec<Vec<DlEdge>>)
        requires
            self.wf(),
        ensures
            is_reverse(self.edges(), adj(r@)),
            targets_ok(adj(r@)),
            finite_weights(adj(r@)),
    {
        let n = self.graph.len();
        let ghost g = adj(self.graph@);
        let mut rev: Vec<Vec<DlEdge>> = Vec::new();
        let mut k: usize = 0;
        while k < n
            invariant
                k <= n,
                rev@.len() == k,
                forall|v: int| 0 <= v < k ==> (#[trigger] rev@[v])@.len() == 0,
            decreases n - k,
        {
            rev.push(Vec::new());
            k = k + 1;
        }
        proof {
            assert forall|v: int, kk: int| #[trigger] valid_edge(adj(rev@), v, kk) implies false by {}
        }
        let mut u: usize = 0;
        while u < n
            invariant
                self.wf(),
                g == adj(self.graph@),
                n == g.len(),
                u <= n,
                rev@.len() == n,
                forall|v: int, kk: int| #[trigger] valid_edge(adj(rev@), v, kk) ==> (exists|i: int| #[trigger]
                    valid_edge(g, adj(rev@)[v][kk].to as int, i) && g[adj(rev@)[v][kk].to as int][i].to == v
                        && g[adj(rev@)[v][kk].to as int][i].weight == adj(rev@)[v][kk].weight),
                forall|x: int, i: int| #[trigger] valid_edge(g, x, i) && x < u ==> exists|kk: int| #[trigger]
                    valid_edge(adj(rev@), g[x][i].to as int, kk) && adj(rev@)[g[x][i].to as int][kk].to == x
                        && adj(rev@)[g[x][i].to as int][kk].weight == g[x][i].weight,
            decreases n - u,
        {
            let len = self.graph[u].len();
            let mut i: usize = 0;
            while i < len
                invariant
                    self.wf(),
                    g == adj(self.graph@),
                    n == g.len(),
                    u < n,
                    len == g[u as int].len(),
                    i <= len,
                    rev@.len() == n,
                    forall|v: int, kk: int| #[trigger] valid_edge(adj(rev@), v, kk) ==> (exists|j: int| #[trigger]
                        valid_edge(g, adj(rev@)[v][kk].to as int, j) && g[adj(rev@)[v][kk].to as int][j].to == v
                            && g[adj(rev@)[v][kk].to as int][j].weight == adj(rev@)[v][kk].weight),
                    forall|x: int, j: int| #[trigger] valid_edge(g, x, j) && (x < u || (x == u && j < i)) ==> exists|kk: int| #[trigger]
                        valid_edge(adj(rev@), g[x][j].to as int, kk) && adj(rev@)[g[x][j].to as int][kk].to == x
                            && adj(rev@)[g[x][j].to as int][kk].weight == g[x][j].weight,
                decreases len - i,
            {
                let e = self.graph[u][i];
                proof {
                    assert(valid_edge(g, u as int, i as int));
                    assert(e == g[u as int][i as int]);
                }
                let to = e.to;
                let ghost r0 = adj(rev@);
                rev[to].push(DlEdge { to: u, weight: e.weight, literal: e.literal });
                proof {
                    let r1 = adj(rev@);
                    assert(r1 =~= r0.update(to as int, r0[to as int].push(DlEdge { to: u, weight: e.weight, literal: e.literal })));
                    assert forall|v: int, kk: int| #[trigger] valid_edge(r1, v, kk) implies (exists|j: int| #[trigger]
                        valid_edge(g, r1[v][kk].to as int, j) && g[r1[v][kk].to as int][j].to == v
                            && g[r1[v][kk].to as int][j].weight == r1[v][kk].weight) by {
                        if v == to && kk == r0[to as int].len() {
                            assert(r1[v][kk] == DlEdge { to: u, weight: e.weight, literal: e.literal });
                            assert(valid_edge(g, r1[v][kk].to as int, i as int));
                        } else {
                            assert(valid_edge(r0, v, kk));
                            assert(r1[v][kk] == r0[v][kk]);
                        }
                    }
                    assert forall|x: int, j: int| #[trigger] valid_edge(g, x, j) && (x < u || (x == u && j < i + 1)) implies exists|kk: int| #[trigger]
                        valid_edge(r1, g[x][j].to as int, kk) && r1[g[x][j].to as int][kk].to == x
                            && r1[g[x][j].to as int][kk].weight == g[x][j].weight by {
                        if x == u && j == i {
                            let kk = r0[to as int].len() as int;
                            assert(valid_edge(r1, g[x][j].to as int, kk));
                        } else {
                            let kk = choose|kk: int| #[trigger]
                                valid_edge(r0, g[x][j].to as int, kk) && r0[g[x][j].to as int][kk].to == x
                                    && r0[g[x][j].to as int][kk].weight == g[x][j].weight;
                            assert(valid_edge(r1, g[x][j].to as int, kk));
                            assert(r1[g[x][j].to as int][kk] == r0[g[x][j].to as int][kk]);
                        }
                    }
                }
                i = i + 1;
            }
            u = u + 1;
        }
        proof {
            let r = adj(rev@);
            assert forall|v: int, kk: int| #[trigger] valid_edge(r, v, kk) implies r[v][kk].to < r.len() && r[v][kk].weight@.real is Fin by {
                let j = choose|j: int| #[trigger]
                    valid_edge(g, r[v][kk].to as int, j) && g[r[v][kk].to as int][j].to == v
                        && g[r[v][kk].to as int][j].weight == r[v][kk].weight;
            }
        }
        rev
    }

    /// Lower bounds of all nodes: minus the lightest-walk distances to node
    /// `0`, computed as distances from `0` in the reversed graph.
    pub fn lbs(&self) -> (r: Option<Vec<InfRational>>)
        requires
            self.wf(),
            self.num_nodes() > 0,
        ensures
            r matches Some(d) ==> {
                &&& d.len() == self.num_nodes()
                &&& exists|rev: Seq<Seq<DlEdge>>| #[trigger] is_reverse(self.edges(), rev)
                    && forall|t: int| 0 <= t < d.len() ==> is_shortest(rev, 0, t, (#[trigger] d[t])@.neg())
            },
    {
        let dists = match self.exact_distances_from_reversed(0) {
            Some(d) => d,
            None => return None,
        };
        let ghost rev = choose|rev: Seq<Seq<DlEdge>>| #[trigger] is_reverse(self.edges(), rev)
            && forall|t: int| 0 <= t < dists.len() ==> is_shortest(rev, 0, t, #[trigger] dists[t]@);
        let n = dists.len();
        let mut out: Vec<InfRational> = Vec::new();
        let mut k: usize = 0;
        while k < n
            invariant
                k <= n,
                n == dists.len(),
                out.len() == k,
                forall|t: int| 0 <= t < k ==> (#[trigger] out[t])@.neg() == dists[t]@,
            decreases n - k,
        {
            let x = dists[k].neg();
            proof {
                crate::rational::lemma_iratio_neg_neg(dists[k as int]@);
            }
            out.push(x);
            k = k + 1;
        }
        proof {
            assert(is_reverse(self.edges(), rev));
            assert forall|t: int| 0 <= t < out.len() implies is_shortest(rev, 0, t, (#[trigger] out[t])@.neg()) by {
                assert(out[t]@.neg() == dists[t]@);
            }
        }
        Some(out)
    }

    /// Follows parent entries back from `conflict_node`, collecting the
    /// literals of the edges crossed, until the walk returns to
    /// `conflict_node`, reaches a node without a parent, or has taken one
    /// step per node.
    pub fn extract_nogood(&self, conflict_node: usize) -> (r: Vec<usize>)
        requires
            self.wf(),
            conflict_node < self.num_nodes(),
        ensures
            r.len() <= self.num_nodes(),
            r@ == nogood_from(self.parent_entries(), conflict_node, conflict_node, self.num_nodes()),
    {
        let n = self.graph.len();
        let ghost par = self.parents@;
        let ghost whole = nogood_from(par, conflict_node, conflict_node, n as nat);
        let mut nogood: Vec<usize> = Vec::new();
        let mut curr = conflict_node;
        let mut steps: usize = 0;
        proof {
            assert(nogood@ + nogood_from(par, conflict_node, curr, n as nat) =~= whole);
        }
        while steps < n
            invariant_except_break
                nogood@ + nogood_from(par, conflict_node, curr, (n - steps) as nat) == whole,
            invariant
                self.wf(),
                par == self.parents@,
                n == self.graph@.len(),
                curr < n,
                steps <= n,
                nogood.len() == steps,
            ensures
                nogood@ == whole,
                nogood.len() <= n,
            decreases n - steps,
        {
            let ghost before = nogood@;
            let ghost c0 = curr;
            match self.parents[curr] {
                None => {
                    proof {
                        assert(nogood_from(par, conflict_node, curr, (n - steps) as nat) =~= Seq::<usize>::empty());
                        assert(nogood@ =~= whole);
                    }
                    break;
                },
                Some((p, literal)) => {
                    proof {
                        assert(p == parent_node(self.parents@[curr as int]));
                    }
                    nogood.push(literal);
                    curr = p;
                },
            }
            steps = steps + 1;
            if curr == conflict_node {
                proof {
                    assert(nogood_from(par, conflict_node, c0, (n - steps + 1) as nat) =~= seq![nogood@.last()]);
                    assert(nogood@ =~= before.push(nogood@.last()));
                    assert(nogood@ =~= whole);
                }
                break;
            }
            proof {
                assert(nogood_from(par, conflict_node, c0, (n - steps + 1) as nat) =~= seq![nogood@.last()] + nogood_from(
                    par,
                    conflict_node,
                    curr,
                    (n - steps) as nat,
                ));
                assert(nogood@ =~= before.push(nogood@.last()));
                assert(nogood@ + nogood_from(par, conflict_node, curr, (n - steps) as nat) =~= whole);
            }
        }
        proof {
            if steps == n {
                assert(nogood_from(par, conflict_node, curr, 0) =~= Seq::<usize>::empty());
            }
        }
        nogood
    }

    /// Re-establishes the potential after the last edge of `source_u` was
    /// added, by relaxing from that edge's target. Fails when the relaxation
    /// comes back to `source_u`, that is when the new edge closes a negative
    /// cycle.
    pub fn check_negative_cycle(&mut self, source_u: usize) -> (r: Result<(), DlError>)
        requires
            old(self).wf(),
            source_u < old(self).num_nodes(),
            old(self).edges()[source_u as int].len() > 0,
        ensures
            final(self).wf(),
            final(self).edges() == old(self).edges(),
            final(self).trail() == old(self).trail(),
            final(self).num_nodes() == old(self).num_nodes(),
            r is Ok ==> forall|u: int, i: int| #[trigger]
                valid_edge(final(self).edges(), u, i) ==> satisfied(final(self).edges(), final(self).potential(), u, i)
                    || excused(old(self).edges(), old(self).potential(), source_u as int, u, i),
            r matches Err(DlError::NegativeCycle(lits)) ==> lits@ == nogood_from(
                final(self).parent_entries(),
                source_u,
                source_u,
                final(self).num_nodes(),
            ),
            r matches Err(DlError::NegativeCycle(_)) ==> exists|w: Seq<(int, int)>|
                #[trigger] is_walk(old(self).edges(), source_u as int, source_u as int, w) && walk_weight(
                    old(self).edges(),
                    w,
                ).lt(IRatio::of_int(0)),
            r matches Err(DlError::NegativeCycle(lits)) ==> forall|k: int|
                0 <= k < lits@.len() ==> edge_literal(old(self).edges(), #[trigger] lits@[k]),
    {
        let ghost g = adj(self.graph@);
        let ghost d0 = self.distances@;
        let n = self.graph.len();
        let last = self.graph[source_u].len() - 1;
        let new_edge = self.graph[source_u][last];
        proof {
            assert(valid_edge(g, source_u as int, last as int));
            assert(new_edge == g[source_u as int][last as int]);
        }
        let target_v = new_edge.to;
        let new_dist = match self.distances[source_u].checked_add(&new_edge.weight) {
            Some(x) => x,
            None => return Err(DlError::Unresolved),
        };
        let ghost du = d0[source_u as int]@;
        let ghost wt = new_edge.weight@;
        proof {
            lemma_iratio_add_monotone(du, du, wt);
            lemma_iratio_eqv(new_dist@, du.add(wt), du.add(wt));
        }
        if !new_dist.lt(&self.distances[target_v]) {
            proof {
                lemma_iratio_trichotomy(new_dist@, d0[target_v as int]@);
                lemma_iratio_eqv(d0[target_v as int]@, new_dist@, du.add(wt));
                lemma_iratio_eqv_order(new_dist@, du.add(wt), d0[target_v as int]@);
                assert(satisfied(g, d0, source_u as int, last as int));
            }
            return Ok(());
        }
        self.distances.set(target_v, new_dist);
        self.parents.set(target_v, Some((source_u, new_edge.literal)));
        let mut in_queue: Vec<bool> = Vec::new();
        let mut k: usize = 0;
        while k < n
            invariant
                k <= n,
                in_queue.len() == k,
                forall|v: int| 0 <= v < k ==> !#[trigger] in_queue[v],
            decreases n - k,
        {
            in_queue.push(false);
            k = k + 1;
        }
        in_queue.set(target_v, true);
        let mut queue: VecDeque<usize> = VecDeque::new();
        queue.push_back(target_v);
        proof {
            let w1 = seq![(source_u as int, last as int)];
            assert(w1.drop_last() =~= Seq::<(int, int)>::empty());
            assert(w1.last() == (source_u as int, last as int));
            assert(is_walk(g, source_u as int, source_u as int, Seq::<(int, int)>::empty()));
            assert(is_walk(g, source_u as int, target_v as int, w1));
            assert(walk_weight(g, Seq::<(int, int)>::empty()) == IRatio::of_int(0));
            assert(walk_weight(g, w1) == IRatio::of_int(0).add(wt));
            lemma_add_zero(wt);
            lemma_iratio_add_eqv(du, du, IRatio::of_int(0).add(wt), wt);
            lemma_iratio_add_monotone(du, du, wt);
            lemma_iratio_add_monotone(IRatio::of_int(0), IRatio::of_int(0), wt);
            lemma_iratio_add_monotone(du, du, IRatio::of_int(0).add(wt));
            lemma_iratio_eqv(new_dist@, du.add(wt), du.add(IRatio::of_int(0).add(wt)));
            lemma_iratio_eqv(du.add(IRatio::of_int(0).add(wt)), du.add(wt), new_dist@);
            assert(du.add(walk_weight(g, w1)).le(self.distances@[target_v as int]@));
            assert(lowered(g, d0, source_u as int, self.distances@, target_v as int));
            assert(valid_edge(g, source_u as int, last as int));
            assert(self.parents@[target_v as int] == Some((source_u, new_edge.literal)));
            assert(g[source_u as int][last as int].to == target_v);
            assert(g[source_u as int][last as int].literal == new_edge.literal);
            assert(exists|i: int|
                #[trigger] valid_edge(g, source_u as int, i) && g[source_u as int][i].to == target_v as int
                    && g[source_u as int][i].literal == new_edge.literal);
            assert(parent_ok(g, d0, source_u as int, self.distances@, self.parents@, target_v as int));
            assert forall|v: int| 0 <= v < n && #[trigger] lowered(g, d0, source_u as int, self.distances@, v) implies parent_ok(
                g,
                d0,
                source_u as int,
                self.distances@,
                self.parents@,
                v,
            ) by {
                if v != target_v {
                    assert(self.distances@[v] == d0[v]);
                    lemma_iratio_eqv(d0[v]@, d0[v]@, d0[v]@);
                    lemma_iratio_trichotomy(d0[v]@, d0[v]@);
                }
            }
            assert forall|v: int| 0 <= v < n implies (#[trigger] self.distances@[v]) == d0[v] || lowered(
                g,
                d0,
                source_u as int,
                self.distances@,
                v,
            ) by {}
            lemma_push_contains(Seq::<usize>::empty(), target_v);
            assert(Seq::<usize>::empty().push(target_v) == queue@);
            assert forall|x: int, i: int| #[trigger] valid_edge(g, x, i) implies in_queue[x] || excused(g, d0, source_u as int, x, i)
                || satisfied(g, self.distances@, x, i) by {
                let to = g[x][i].to as int;
                if x != target_v {
                    assert(self.distances@[x] == d0[x]);
                    if x == source_u && i == last {
                        lemma_iratio_eqv_order(new_dist@, du.add(wt), du.add(wt));
                    } else if satisfied(g, d0, x, i) {
                        if to == target_v {
                            lemma_iratio_add_monotone(d0[x]@, d0[x]@, g[x][i].weight@);
                            lemma_iratio_le_trans(new_dist@, d0[target_v as int]@, d0[x]@.add(g[x][i].weight@));
                        } else {
                            assert(self.distances@[to] == d0[to]);
                        }
                    }
                }
            }
        }
        let mut fuel: usize = match n.checked_mul(n) {
            Some(m) => match m.checked_add(n) {
                Some(f) => match f.checked_add(1) {
                    Some(h) => h,
                    None => usize::MAX,
                },
                None => usize::MAX,
            },
            None => usize::MAX,
        };
        loop
            invariant
                self.wf(),
                g == adj(self.graph@),
                self.graph@ == old(self).graph@,
                self.log@ == old(self).log@,
                self.history@ == old(self).history@,
                g == old(self).edges(),
                d0 == old(self).potential(),
                n == g.len(),
                source_u < n,
                last < g[source_u as int].len(),
                in_queue.len() == n,
                queue@.no_duplicates(),
                forall|k: int| 0 <= k < queue@.len() ==> #[trigger] queue@[k] < n,
                forall|v: int| 0 <= v < n ==> (#[trigger] in_queue[v] <==> queue@.contains(v as usize)),
                forall|x: int, i: int| #[trigger] valid_edge(g, x, i) ==> in_queue[x] || excused(g, d0, source_u as int, x, i)
                    || satisfied(g, self.distances@, x, i),
                self.distances@.len() == n,
                d0.len() == n,
                forall|v: int| 0 <= v < n ==> (#[trigger] d0[v])@.real is Fin,
                forall|v: int| 0 <= v < n ==> (#[trigger] self.distances@[v]) == d0[v] || lowered(
                    g,
                    d0,
                    source_u as int,
                    self.distances@,
                    v,
                ),
                forall|v: int| 0 <= v < n && #[trigger] in_queue[v] ==> lowered(g, d0, source_u as int, self.distances@, v),
                self.parents@.len() == n,
                forall|v: int| 0 <= v < n && #[trigger] lowered(g, d0, source_u as int, self.distances@, v) ==> parent_ok(
                    g,
                    d0,
                    source_u as int,
                    self.distances@,
                    self.parents@,
                    v,
                ),
            ensures
                queue@.len() == 0,
            decreases fuel,
        {
            if fuel == 0 {
                return Err(DlError::Unresolved);
            }
            fuel = fuel - 1;
            let ghost q0 = queue@;
            let popped = queue.pop_front();
            let curr = match popped {
                Some(c) => c,
                None => break,
            };
            proof {
                assert(curr == popped->0);
                assert(q0 == seq![curr].add(queue@));
                lemma_pop_front_bookkeeping(q0, queue@, curr, in_queue@, n as int);
                assert(q0.contains(curr));
                assert(in_queue[curr as int]);
                assert(lowered(g, d0, source_u as int, self.distances@, curr as int));
            }
            in_queue.set(curr, false);
            proof {
                assert forall|v: int| 0 <= v < n implies (#[trigger] in_queue[v] <==> queue@.contains(v as usize)) by {
                    if queue@.contains(v as usize) {
                        let k = choose|k: int| 0 <= k < queue@.len() && queue@[k] == v as usize;
                        assert(q0[k + 1] == v as usize);
                        if v == curr {
                            assert(q0[0] == q0[k + 1]);
                        }
                    }
                    if v != curr && q0.contains(v as usize) {
                        let k = choose|k: int| 0 <= k < q0.len() && q0[k] == v as usize;
                        assert(k > 0);
                        assert(queue@[k - 1] == v as usize);
                    }
                }
            }
            if curr == source_u {
                proof {
                    let d = self.distances@;
                    let b = d0[source_u as int]@;
                    let w = choose|w: Seq<(int, int)>|
                        #[trigger] is_walk(g, source_u as int, source_u as int, w) && b.add(walk_weight(g, w)).le(
                            d[source_u as int]@,
                        );
                    lemma_walk_weight_finite(g, source_u as int, source_u as int, w);
                    lemma_iratio_add_monotone(b, b, walk_weight(g, w));
                    lemma_iratio_le_trans(b.add(walk_weight(g, w)), d[source_u as int]@, b);
                    lemma_add_lowers(b, walk_weight(g, w));
                    lemma_nogood_edges(g, d0, source_u as int, d, self.parents@, source_u, n as nat);
                }
                let nogood = self.extract_nogood(source_u);
                return Err(DlError::NegativeCycle(nogood));
            }
            let len = self.graph[curr].len();
            let mut j: usize = 0;
            while j < len
                invariant
                    self.wf(),
                    g == adj(self.graph@),
                    self.graph@ == old(self).graph@,
                    self.log@ == old(self).log@,
                    self.history@ == old(self).history@,
                    g == old(self).edges(),
                    d0 == old(self).potential(),
                    n == g.len(),
                    source_u < n,
                    curr < n,
                    len == g[curr as int].len(),
                    j <= len,
                    in_queue.len() == n,
                    queue@.no_duplicates(),
                    forall|k: int| 0 <= k < queue@.len() ==> #[trigger] queue@[k] < n,
                    forall|v: int| 0 <= v < n ==> (#[trigger] in_queue[v] <==> queue@.contains(v as usize)),
                    forall|x: int, i: int| #[trigger] valid_edge(g, x, i) ==> in_queue[x] || excused(g, d0, source_u as int, x, i)
                        || satisfied(g, self.distances@, x, i) || (x == curr && i >= j),
                    self.distances@.len() == n,
                    d0.len() == n,
                    forall|v: int| 0 <= v < n ==> (#[trigger] d0[v])@.real is Fin,
                    forall|v: int| 0 <= v < n ==> (#[trigger] self.distances@[v]) == d0[v] || lowered(
                        g,
                        d0,
                        source_u as int,
                        self.distances@,
                        v,
                    ),
                    forall|v: int| 0 <= v < n && #[trigger] in_queue[v] ==> lowered(g, d0, source_u as int, self.distances@, v),
                    lowered(g, d0, source_u as int, self.distances@, curr as int),
                    self.parents@.len() == n,
                    forall|v: int| 0 <= v < n && #[trigger] lowered(g, d0, source_u as int, self.distances@, v) ==> parent_ok(
                        g,
                        d0,
                        source_u as int,
                        self.distances@,
                        self.parents@,
                        v,
                    ),
                decreases len - j,
            {
                let e = self.graph[curr][j];
                proof {
                    assert(valid_edge(g, curr as int, j as int));
                    assert(e == g[curr as int][j as int]);
                }
                let next = e.to;
                let relaxed = match self.distances[curr].checked_add(&e.weight) {
                    Some(x) => x,
                    None => return Err(DlError::Unresolved),
                };
                let ghost old_d = self.distances@;
                let ghost dc = old_d[curr as int]@;
                let ghost we = e.weight@;
                proof {
                    lemma_iratio_add_monotone(dc, dc, we);
                    lemma_iratio_eqv(relaxed@, dc.add(we), dc.add(we));
                }
                if relaxed.lt(&self.distances[next]) {
                    let ghost wc = choose|w: Seq<(int, int)>|
                        #[trigger] is_walk(g, source_u as int, curr as int, w) && d0[source_u as int]@.add(
                            walk_weight(g, w),
                        ).le(old_d[curr as int]@);
                    proof {
                        lemma_lowered_step(g, source_u as int, curr as int, j as int, wc, d0[source_u as int]@, dc, relaxed@);
                        lemma_iratio_trichotomy(relaxed@, old_d[next as int]@);
                        if old_d[next as int] != d0[next as int] {
                            lemma_iratio_le_trans(relaxed@, old_d[next as int]@, d0[next as int]@);
                        }
                    }
                    self.distances.set(next, relaxed);
                    proof {
                        let d1 = self.distances@;
                        assert(d1[next as int] == relaxed);
                        assert(lowered(g, d0, source_u as int, d1, next as int)) by {
                            assert(is_walk(g, source_u as int, next as int, wc.push((curr as int, j as int))));
                        }
                        assert forall|v: int| 0 <= v < n && v != next implies #[trigger] d1[v] == old_d[v] by {}
                        assert forall|v: int| 0 <= v < n && v != next && lowered(g, d0, source_u as int, old_d, v)
                            implies lowered(g, d0, source_u as int, d1, v) by {
                            assert(d1[v] == old_d[v]);
                            let w = choose|w: Seq<(int, int)>|
                                #[trigger] is_walk(g, source_u as int, v, w) && d0[source_u as int]@.add(
                                    walk_weight(g, w),
                                ).le(old_d[v]@);
                            assert(is_walk(g, source_u as int, v, w));
                        }
                    }
                    self.parents.set(next, Some((curr, e.literal)));
                    if !in_queue[next] {
                        let ghost q1 = queue@;
                        queue.push_back(next);
                        in_queue.set(next, true);
                        proof {
                            lemma_push_contains(q1, next);
                            assert forall|k: int| 0 <= k < queue@.len() implies #[trigger] queue@[k] < n by {
                                if k < q1.len() {
                                    assert(queue@[k] == q1[k]);
                                }
                            }
                            assert(queue@.no_duplicates()) by {
                                assert forall|a: int, b: int| 0 <= a < b < queue@.len() implies queue@[a] != queue@[b] by {
                                    if b == q1.len() {
                                        assert(q1.contains(queue@[a]));
                                    } else {
                                        assert(queue@[a] == q1[a]);
                                        assert(queue@[b] == q1[b]);
                                    }
                                }
                            }
                        }
                    }
                    proof {
                        assert forall|v: int| 0 <= v < n implies parent_node(#[trigger] self.parents@[v]) < n by {}
                        assert forall|v: int| 0 <= v < n implies (#[trigger] self.distances@[v])@.real is Fin by {
                            if v != next {
                                assert(self.distances@[v] == old_d[v]);
                            }
                        }
                        lemma_iratio_trichotomy(relaxed@, old_d[next as int]@);
                        assert forall|x: int, i: int| #[trigger] valid_edge(g, x, i) implies in_queue[x] || excused(g, d0, source_u as int, x, i)
                            || satisfied(g, self.distances@, x, i) || (x == curr && i >= j + 1) by {
                            let to = g[x][i].to as int;
                            if !in_queue[x] {
                                assert(x != next);
                                assert(self.distances@[x] == old_d[x]);
                                if x == curr && i == j {
                                    lemma_iratio_eqv_order(relaxed@, dc.add(we), dc.add(we));
                                } else if !excused(g, d0, source_u as int, x, i) && !(x == curr && i >= j) {
                                    assert(satisfied(g, old_d, x, i));
                                    if to == next {
                                        lemma_iratio_add_monotone(old_d[x]@, old_d[x]@, g[x][i].weight@);
                                        lemma_iratio_le_trans(relaxed@, old_d[next as int]@, old_d[x]@.add(g[x][i].weight@));
                                    } else {
                                        assert(self.distances@[to] == old_d[to]);
                                    }
                                }
                            }
                        }
                    }
                } else {
                    proof {
                        lemma_iratio_trichotomy(relaxed@, old_d[next as int]@);
                        lemma_iratio_eqv(relaxed@, dc.add(we), old_d[next as int]@);
                        lemma_iratio_eqv_order(relaxed@, dc.add(we), old_d[next as int]@);
                        assert(satisfied(g, self.distances@, curr as int, j as int));
                    }
                }
                j = j + 1;
            }
        }
        proof {
            assert forall|u: int, i: int| #[trigger] valid_edge(g, u, i) implies satisfied(g, self.distances@, u, i)
                || excused(g, d0, source_u as int, u, i) by {
                if in_queue[u] {
                    assert(queue@.contains(u as usize));
                }
            }
        }
        Ok(())
    }

    /// Asserts the edge `from → edge.to` (`edge.to - from <= edge.weight`).
    /// When the potential satisfied every edge before, `Ok` means it now also
    /// satisfies the new one, so the edges still hold no negative cycle.
    pub fn assert_edge(&mut self, from: usize, edge: DlEdge) -> (r: Result<(), DlError>)
        requires
            old(self).wf(),
            from < old(self).num_nodes(),
            edge.to < old(self).num_nodes(),
            edge.weight@.real is Fin,
        ensures
            final(self).wf(),
            final(self).num_nodes() == old(self).num_nodes(),
            final(self).trail() == old(self).trail().push((from, edge)),
            final(self).edges() == old(self).edges().update(
                from as int,
                old(self).edges()[from as int].push(edge),
            ),
            is_potential(old(self).edges(), old(self).potential()) && r is Ok ==> is_potential(
                final(self).edges(),
                final(self).potential(),
            ),
            r matches Err(DlError::NegativeCycle(lits)) ==> lits@ == nogood_from(
                final(self).parent_entries(),
                from,
                from,
                final(self).num_nodes(),
            ),
            r matches Err(DlError::NegativeCycle(_)) ==> exists|w: Seq<(int, int)>|
                #[trigger] is_walk(final(self).edges(), from as int, from as int, w) && walk_weight(
                    final(self).edges(),
                    w,
                ).lt(IRatio::of_int(0)),
            r matches Err(DlError::NegativeCycle(lits)) ==> forall|k: int|
                0 <= k < lits@.len() ==> edge_literal(final(self).edges(), #[trigger] lits@[k]),
            r matches Err(DlError::NegativeCycle(_)) ==> forall|d: Seq<InfRational>|
                d.len() == final(self).num_nodes() && (forall|v: int| 0 <= v < d.len() ==> (#[trigger] d[v])@.real is Fin)
                    ==> !#[trigger] is_potential(final(self).edges(), d),
    {
        let ghost n = self.graph@.len();
        let ghost g0 = adj(self.graph@);
        self.graph[from].push(edge);
        self.history.push(from);
        proof {
            let l = self.log@.push((from, edge));
            self.log@ = l;
            assert(l.drop_last() =~= old(self).log@);
            assert(l.last() == (from, edge));
            assert(adj(self.graph@) =~= g0.update(from as int, g0[from as int].push(edge)));
            assert forall|k: int| 0 <= k < self.log@.len() implies #[trigger] self.history@[k] == self.log@[k].0 by {
                if k < old(self).log@.len() {
                    assert(self.history@[k] == old(self).history@[k]);
                }
            }
            assert forall|u: int, i: int| #[trigger] valid_edge(adj(self.graph@), u, i) implies adj(
                self.graph@,
            )[u][i].to < n && adj(self.graph@)[u][i].weight@.real is Fin by {
                if !(u == from && i == g0[from as int].len()) {
                    assert(valid_edge(g0, u, i));
                }
            }
        }
        let ghost g1 = adj(self.graph@);
        let ghost d1 = self.distances@;
        let r = self.check_negative_cycle(from);
        proof {
            if r matches Err(DlError::NegativeCycle(_)) {
                let w = choose|w: Seq<(int, int)>|
                    #[trigger] is_walk(g1, from as int, from as int, w) && walk_weight(g1, w).lt(IRatio::of_int(0));
                law_negative_cycle_refutes(g1, from as int, w);
            }
            if is_potential(g0, d1) && r is Ok {
                assert forall|u: int, i: int| valid_edge(g1, u, i) implies #[trigger] satisfied(g1, self.distances@, u, i) by {
                    if !(u == from && i == g0[from as int].len()) {
                        assert(valid_edge(g0, u, i));
                        assert(g1[u][i] == g0[u][i]);
                        assert(satisfied(g0, d1, u, i));
                    }
                    assert(valid_edge(g1, u, i));
                }
            }
        }
        r
    }

    /// The number of nodes.
    pub fn node_count(&self) -> (r: usize)
        ensures
            r == self.num_nodes(),
    {
        self.graph.len()
    }

    /// The number of asserted edges still in place.
    pub fn trail_len(&self) -> (r: usize)
        requires
            self.wf(),
        ensures
            r == self.trail().len(),
    {
        self.history.len()
    }

    /// The number of edges leaving `v`.
    pub fn out_degree(&self, v: usize) -> (r: usize)
        requires
            v < self.num_nodes(),
        ensures
            r == self.edges()[v as int].len(),
    {
        self.graph[v].len()
    }

    /// The number of entries of the potential.
    pub fn potential_len(&self) -> (r: usize)
        ensures
            r == self.potential().len(),
    {
        self.distances.len()
    }
}

/// Along any walk, a potential grows by at most the walk's weight:
/// `d[t] <= d[s] + weight(w)`.
proof fn lemma_potential_along_walk(g: Seq<Seq<DlEdge>>, d: Seq<InfRational>, s: int, t: int, w: Seq<(int, int)>)
    requires
        is_potential(g, d),
        finite_weights(g),
        targets_ok(g),
        d.len() == g.len(),
        0 <= s < g.len(),
        forall|v: int| 0 <= v < d.len() ==> (#[trigger] d[v])@.real is Fin,
        is_walk(g, s, t, w),
    ensures
        d[t]@.le(d[s]@.add(walk_weight(g, w))),
        0 <= t < g.len(),
    decreases w.len(),
{
    let ds = d[s]@;
    if w.len() == 0 {
        lemma_add_zero(ds);
        lemma_iratio_eqv(ds, ds, ds);
    } else {
        let (u, i) = w.last();
        let w0 = w.drop_last();
        assert(valid_edge(g, u, i));
        lemma_potential_along_walk(g, d, s, u, w0);
        lemma_walk_weight_finite(g, s, u, w0);
        let ww = walk_weight(g, w0);
        let wt = g[u][i].weight@;
        assert(satisfied(g, d, u, i));
        lemma_iratio_add_monotone(ds, ds, ww);
        lemma_iratio_add_monotone(d[u]@, ds.add(ww), wt);
        lemma_add_assoc(ds, ww, wt);
        lemma_iratio_add_monotone(ds.add(ww), ds.add(ww), wt);
        lemma_iratio_add_monotone(ww, ww, wt);
        lemma_iratio_add_monotone(ds, ds, ww.add(wt));
        lemma_iratio_le_trans(d[t]@, d[u]@.add(wt), ds.add(ww).add(wt));
        lemma_iratio_eqv_order(ds.add(ww).add(wt), ds.add(ww.add(wt)), d[t]@);
    }
}

/// Consistency certificate: when `d` satisfies every edge, every closed walk
/// has a non-negative weight, so the constraints hold no negative cycle.
pub proof fn lemma_potential_no_negative_cycle(g: Seq<Seq<DlEdge>>, d: Seq<InfRational>, s: int, w: Seq<(int, int)>)
    requires
        is_potential(g, d),
        finite_weights(g),
        targets_ok(g),
        d.len() == g.len(),
        0 <= s < g.len(),
        forall|v: int| 0 <= v < d.len() ==> (#[trigger] d[v])@.real is Fin,
        is_walk(g, s, s, w),
    ensures
        IRatio::of_int(0).le(walk_weight(g, w)),
{
    lemma_potential_along_walk(g, d, s, s, w);
    lemma_walk_weight_finite(g, s, s, w);
    lemma_cancel_left(d[s]@, walk_weight(g, w));
}

} // verus!
