//! Equality with uninterpreted functions: congruence closure over a
//! union-find with a proof forest, undone level by level.
use crate::lit::Lit;
use vstd::prelude::*;

verus! {

/// A term: a variable or a function applied to terms (by id).
#[derive(Debug, PartialEq, Eq, Hash)]
pub enum Term {
    Var(usize),
    App(usize, Vec<usize>),
}

/// A function symbol with the representatives of its arguments.
#[derive(Debug, PartialEq, Eq, Hash)]
pub struct Signature {
    pub f: usize,
    pub args: Vec<usize>,
}

/// An edge of the proof forest: `target`, and the literal that justified the
/// equality (`None` for a congruence).
#[derive(Clone, Copy, Debug)]
pub struct ProofEdge {
    pub target: usize,
    pub reason: Option<Lit>,
}

/// A change recorded so that it can be undone.
pub enum EufUndoOp {
    Merged { child: usize, old_size: usize, parent: usize },
    AppendedUseList { parent: usize, count: usize },
    ProofRerooted { changes: Vec<(usize, Option<ProofEdge>)> },
    SigInserted { sig: Signature },
    SigRemoved { sig: Signature, term: usize },
}

/// The parents after undoing one trail entry: a merge makes its child a root
/// again.
pub open spec fn undo_step(parents: Seq<usize>, op: EufUndoOp) -> Seq<usize> {
    match op {
        EufUndoOp::Merged { child, .. } => if child < parents.len() {
            parents.update(child as int, child)
        } else {
            parents
        },
        _ => parents,
    }
}

/// The parents obtained by undoing the merges of `trail`, last entry first.
pub open spec fn undo_parents(parents: Seq<usize>, trail: Seq<EufUndoOp>) -> Seq<usize>
    decreases trail.len(),
{
    if trail.len() == 0 {
        parents
    } else {
        undo_parents(undo_step(parents, trail.last()), trail.drop_last())
    }
}

/// Undoing the trail down to each level's start gives back the parents saved
/// when that level was opened.
pub open spec fn saved_ok(parents: Seq<usize>, trail: Seq<EufUndoOp>, lim: Seq<usize>, saved: Seq<Seq<usize>>) -> bool {
    &&& saved.len() == lim.len()
    &&& forall|k: int|
        0 <= k < saved.len() ==> #[trigger] saved[k] == undo_parents(parents, trail.subrange(lim[k] as int, trail.len() as int))
}

/// Recording an entry that is not a merge keeps the saved parents.
proof fn lemma_saved_push_other(p: Seq<usize>, t: Seq<EufUndoOp>, lim: Seq<usize>, saved: Seq<Seq<usize>>, op: EufUndoOp)
    requires
        saved_ok(p, t, lim, saved),
        forall|k: int| 0 <= k < lim.len() ==> #[trigger] lim[k] <= t.len(),
        op !is Merged,
    ensures
        saved_ok(p, t.push(op), lim, saved),
{
    assert forall|k: int| 0 <= k < saved.len() implies #[trigger] saved[k] == undo_parents(
        p,
        t.push(op).subrange(lim[k] as int, t.push(op).len() as int),
    ) by {
        let s = t.subrange(lim[k] as int, t.len() as int);
        assert(t.push(op).subrange(lim[k] as int, t.push(op).len() as int) =~= s.push(op));
        assert(s.push(op).drop_last() =~= s);
    }
}

/// Recording the merge of a root `c` under `par`, then linking it, keeps the
/// saved parents.
proof fn lemma_saved_push_merge(
    p: Seq<usize>,
    t: Seq<EufUndoOp>,
    lim: Seq<usize>,
    saved: Seq<Seq<usize>>,
    c: usize,
    par: usize,
    op: EufUndoOp,
)
    requires
        saved_ok(p, t, lim, saved),
        forall|k: int| 0 <= k < lim.len() ==> #[trigger] lim[k] <= t.len(),
        c < p.len(),
        p[c as int] == c,
        op matches EufUndoOp::Merged { child, .. } && child == c,
    ensures
        saved_ok(p.update(c as int, par), t.push(op), lim, saved),
{
    let q = p.update(c as int, par);
    assert(q.update(c as int, c) =~= p);
    assert forall|k: int| 0 <= k < saved.len() implies #[trigger] saved[k] == undo_parents(
        q,
        t.push(op).subrange(lim[k] as int, t.push(op).len() as int),
    ) by {
        let s = t.subrange(lim[k] as int, t.len() as int);
        assert(t.push(op).subrange(lim[k] as int, t.push(op).len() as int) =~= s.push(op));
        assert(s.push(op).drop_last() =~= s);
    }
}

/// How many of the first `k` indices are their own parent.
pub open spec fn roots_below(p: Seq<usize>, k: nat) -> nat
    decreases k,
{
    if k == 0 {
        0
    } else {
        roots_below(p, (k - 1) as nat) + if p[k - 1] as int == k - 1 {
            1nat
        } else {
            0nat
        }
    }
}

/// Pointing a root elsewhere removes one root.
proof fn lemma_roots_below_update(p: Seq<usize>, c: int, v: usize, k: nat)
    requires
        0 <= c < p.len(),
        k <= p.len(),
        p[c] == c,
        v != c,
    ensures
        c < k ==> roots_below(p.update(c, v), k) + 1 == roots_below(p, k),
        c >= k ==> roots_below(p.update(c, v), k) == roots_below(p, k),
    decreases k,
{
    if k > 0 {
        lemma_roots_below_update(p, c, v, (k - 1) as nat);
    }
}

/// How many entries of `s` are `false`.
pub open spec fn count_false(s: Seq<bool>) -> nat
    decreases s.len(),
{
    if s.len() == 0 {
        0
    } else {
        count_false(s.drop_last()) + if s.last() {
            0nat
        } else {
            1nat
        }
    }
}

proof fn lemma_count_false_set(s: Seq<bool>, i: int)
    requires
        0 <= i < s.len(),
        !s[i],
    ensures
        count_false(s.update(i, true)) + 1 == count_false(s),
    decreases s.len(),
{
    let u = s.update(i, true);
    if i == s.len() - 1 {
        assert(u.drop_last() =~= s.drop_last());
    } else {
        assert(u.drop_last() =~= s.drop_last().update(i, true));
        lemma_count_false_set(s.drop_last(), i);
    }
}

proof fn lemma_count_false_all(s: Seq<bool>)
    requires
        forall|i: int| 0 <= i < s.len() ==> !s[i],
    ensures
        count_false(s) == s.len(),
    decreases s.len(),
{
    if s.len() > 0 {
        lemma_count_false_all(s.drop_last());
    }
}

/// The key of a signature: its symbol and its arguments.
pub open spec fn key_of(s: Signature) -> (usize, Seq<usize>) {
    (s.f, s.args@)
}

/// No two entries of `t` have the same key.
pub open spec fn keys_distinct(t: Seq<(Signature, usize)>) -> bool {
    forall|i: int, j: int| 0 <= i < j < t.len() ==> key_of(#[trigger] t[i].0) != key_of(#[trigger] t[j].0)
}

/// The entries of `t` as a map from keys to terms.
pub open spec fn table_map(t: Seq<(Signature, usize)>) -> Map<(usize, Seq<usize>), usize> {
    Map::new(
        |k: (usize, Seq<usize>)| exists|i: int| 0 <= i < t.len() && key_of(t[i].0) == k,
        |k: (usize, Seq<usize>)| t[choose|i: int| 0 <= i < t.len() && key_of(t[i].0) == k].1,
    )
}

/// With distinct keys, entry `i` gives the term of its key.
proof fn lemma_table_at(t: Seq<(Signature, usize)>, i: int)
    requires
        keys_distinct(t),
        0 <= i < t.len(),
    ensures
        table_map(t).contains_key(key_of(t[i].0)),
        table_map(t)[key_of(t[i].0)] == t[i].1,
{
    let k = key_of(t[i].0);
    assert(exists|j: int| 0 <= j < t.len() && key_of(t[j].0) == k);
    let j = choose|j: int| 0 <= j < t.len() && key_of(t[j].0) == k;
    if j < i {
        assert(key_of(t[j].0) != key_of(t[i].0));
    } else if j > i {
        assert(key_of(t[i].0) != key_of(t[j].0));
    }
}

/// The signature table after undoing one trail entry.
pub open spec fn undo_table_step(t: Map<(usize, Seq<usize>), usize>, op: EufUndoOp) -> Map<(usize, Seq<usize>), usize> {
    match op {
        EufUndoOp::SigInserted { sig } => t.remove(key_of(sig)),
        EufUndoOp::SigRemoved { sig, term } => t.insert(key_of(sig), term),
        _ => t,
    }
}

/// The signature table obtained by undoing `trail`, last entry first.
pub open spec fn undo_table(t: Map<(usize, Seq<usize>), usize>, trail: Seq<EufUndoOp>) -> Map<(usize, Seq<usize>), usize>
    decreases trail.len(),
{
    if trail.len() == 0 {
        t
    } else {
        undo_table(undo_table_step(t, trail.last()), trail.drop_last())
    }
}

/// The use lists after undoing one trail entry.
pub open spec fn undo_uses_step(u: Seq<Seq<usize>>, op: EufUndoOp) -> Seq<Seq<usize>> {
    match op {
        EufUndoOp::AppendedUseList { parent, count } => if parent < u.len() {
            let l = u[parent as int];
            u.update(
                parent as int,
                l.take(
                    if count <= l.len() {
                        l.len() - count
                    } else {
                        0
                    },
                ),
            )
        } else {
            u
        },
        _ => u,
    }
}

/// The use lists obtained by undoing `trail`, last entry first.
pub open spec fn undo_uses(u: Seq<Seq<usize>>, trail: Seq<EufUndoOp>) -> Seq<Seq<usize>>
    decreases trail.len(),
{
    if trail.len() == 0 {
        u
    } else {
        undo_uses(undo_uses_step(u, trail.last()), trail.drop_last())
    }
}

/// Each snapshot, taken when its level was opened, has the signature table
/// and use lists obtained by undoing the trail down to the level's start.
pub closed spec fn snaps_ok(
    table: Map<(usize, Seq<usize>), usize>,
    uses: Seq<Seq<usize>>,
    terms: Seq<Term>,
    trail: Seq<EufUndoOp>,
    lim: Seq<usize>,
    snaps: Seq<EufTheory>,
) -> bool {
    &&& snaps.len() == lim.len()
    &&& forall|k: int|
        0 <= k < snaps.len() ==> {
            let suffix = trail.subrange(lim[k] as int, trail.len() as int);
            &&& (#[trigger] snaps[k]).table() == undo_table(table, suffix)
            &&& snaps[k].use_views() == undo_uses(uses, suffix)
            &&& snaps[k].terms@ == terms
            &&& snaps[k].core_ok()
            &&& snaps[k].closure_ok()
            &&& snaps[k].sound_ok()
            &&& snaps[k].pending_merges@.len() == 0
        }
}

/// Recording `op` after a change that undoing `op` takes back keeps the
/// snapshots.
proof fn lemma_snaps_push(
    table: Map<(usize, Seq<usize>), usize>,
    uses: Seq<Seq<usize>>,
    terms: Seq<Term>,
    t: Seq<EufUndoOp>,
    lim: Seq<usize>,
    snaps: Seq<EufTheory>,
    op: EufUndoOp,
)
    requires
        snaps_ok(undo_table_step(table, op), undo_uses_step(uses, op), terms, t, lim, snaps),
        forall|k: int| 0 <= k < lim.len() ==> #[trigger] lim[k] <= t.len(),
    ensures
        snaps_ok(table, uses, terms, t.push(op), lim, snaps),
{
    assert forall|k: int| 0 <= k < snaps.len() implies {
        let suffix = t.push(op).subrange(lim[k] as int, t.push(op).len() as int);
        &&& (#[trigger] snaps[k]).table() == undo_table(table, suffix)
        &&& snaps[k].use_views() == undo_uses(uses, suffix)
    } by {
        let s = t.subrange(lim[k] as int, t.len() as int);
        assert(t.push(op).subrange(lim[k] as int, t.push(op).len() as int) =~= s.push(op));
        assert(s.push(op).drop_last() =~= s);
    }
}

/// Every term of the table of a consistent state is an application.
proof fn lemma_table_value(s: EufTheory, key: (usize, Seq<usize>))
    requires
        s.core_ok(),
        s.table().contains_key(key),
    ensures
        s.table()[key] < s.num_terms(),
        s.is_app(s.table()[key] as int),
{
    let t = s.sig_table@;
    let i = choose|i: int| 0 <= i < t.len() && key_of(t[i].0) == key;
    lemma_table_at(t, i);
}

/// The representative of an argument is a term.
proof fn lemma_root_is_root_arg(s: EufTheory, u: int, i: int)
    requires
        s.core_ok(),
        0 <= u < s.num_terms(),
        0 <= i < s.arity(u),
    ensures
        0 <= s.arg_root(u, i) < s.num_terms(),
        s.parents@[s.arg_root(u, i)] == s.arg_root(u, i),
{
    if let Term::App(_, args) = s.terms@[u] {
        assert(args@[i] < s.num_terms());
        s.lemma_root_is_root(args@[i] as int);
    }
}

/// The congruence closure state.
pub struct EufTheory {
    parents: Vec<usize>,
    sizes: Vec<usize>,
    terms: Vec<Term>,
    sig_table: Vec<(Signature, usize)>,
    use_list: Vec<Vec<usize>>,
    pending_merges: Vec<(usize, usize)>,
    undo_trail: Vec<EufUndoOp>,
    trail_lim: Vec<usize>,
    proof_tree: Vec<Option<ProofEdge>>,
    disequalities: Vec<(usize, usize, Lit)>,
    diseq_lim: Vec<usize>,
    next_func_id: usize,
    rank: Ghost<Seq<nat>>,
    rank_max: Ghost<nat>,
    saved: Ghost<Seq<Seq<usize>>>,
    snapshots: Ghost<Seq<EufTheory>>,
}

impl EufTheory {
    /// Number of terms.
    pub closed spec fn num_terms(self) -> nat {
        self.terms@.len()
    }

    /// Number of open decision levels.
    pub closed spec fn levels(self) -> nat {
        self.trail_lim@.len()
    }

    /// Number of function symbols handed out.
    pub closed spec fn func_ids(self) -> nat {
        self.next_func_id as nat
    }

    /// The union-find parents.
    pub closed spec fn parent_links(self) -> Seq<usize> {
        self.parents@
    }

    /// The parents recorded when level `k` was opened.
    pub closed spec fn saved_at(self, k: int) -> Seq<usize> {
        self.saved@[k]
    }

    /// Whether term `t` is an application.
    pub closed spec fn is_app(self, t: int) -> bool {
        self.terms@[t] is App
    }

    /// The function symbol of the application `t` (`0` for a variable).
    pub closed spec fn symbol(self, t: int) -> usize {
        match self.terms@[t] {
            Term::App(f, _) => f,
            Term::Var(_) => 0,
        }
    }

    /// The arguments of the application `t` (none for a variable).
    pub closed spec fn args(self, t: int) -> Seq<usize> {
        match self.terms@[t] {
            Term::App(_, a) => a@,
            Term::Var(_) => Seq::empty(),
        }
    }

    /// The recorded disequalities.
    pub closed spec fn diseqs(self) -> Seq<(usize, usize, Lit)> {
        self.disequalities@
    }

    /// Parents point to terms of higher rank, so that following them ends.
    pub closed spec fn links_ok(self) -> bool {
        let n = self.terms@.len();
        &&& self.parents@.len() == n
        &&& self.rank@.len() == n
        &&& forall|t: int| 0 <= t < n ==> (#[trigger] self.parents@[t]) < n
        &&& forall|t: int| 0 <= t < n ==> #[trigger] self.rank@[t] <= self.rank_max@
        &&& forall|t: int|
            0 <= t < n && #[trigger] self.parents@[t] != t ==> self.rank@[self.parents@[t] as int] > self.rank@[t]
    }

    /// Number of classes.
    pub closed spec fn classes(self) -> nat {
        roots_below(self.parents@, self.parents@.len())
    }

    /// How far `t` may be from its representative.
    pub closed spec fn height(self, t: int) -> int {
        self.rank_max@ - self.rank@[t]
    }

    /// The representative of the class of `t`.
    pub closed spec fn root(self, t: int) -> int
        decreases self.height(t),
        when self.links_ok() && 0 <= t < self.num_terms()
    {
        if self.parents@[t] == t {
            t
        } else {
            self.root(self.parents@[t] as int)
        }
    }

    /// All parts of the state are consistent.
    pub closed spec fn wf(self) -> bool {
        self.base_ok() && self.closure_ok() && self.sound_ok()
    }

    /// Each term in the signature table is recorded under its own
    /// signature, and each queued merge joins congruent applications.
    pub closed spec fn sound_ok(self) -> bool {
        &&& forall|key: (usize, Seq<usize>)|
            #[trigger] self.table().contains_key(key) ==> self.sig_key(self.table()[key] as int) == key
        &&& forall|k: int|
            0 <= k < self.pending_merges@.len() ==> self.sig_key((#[trigger] self.pending_merges@[k]).0 as int) == self.sig_key(
                self.pending_merges@[k].1 as int,
            )
    }

    /// Every queued merge joins congruent applications.
    pub proof fn lemma_queue_congruent(self)
        requires
            self.wf(),
        ensures
            forall|k: int|
                0 <= k < self.pending().len() ==> self.congruent(
                    (#[trigger] self.pending()[k]).0 as int,
                    self.pending()[k].1 as int,
                ),
    {
        assert forall|k: int| 0 <= k < self.pending().len() implies self.congruent(
            (#[trigger] self.pending()[k]).0 as int,
            self.pending()[k].1 as int,
        ) by {
            assert(self.pending_merges@[k] == self.pending()[k]);
        }
    }

    /// The soundness facts depend only on the terms, the parents, the table
    /// and the queued merges.
    proof fn lemma_sound_frame(self, other: EufTheory)
        requires
            other.sound_ok(),
            self.core_ok(),
            other.core_ok(),
            self.terms@ == other.terms@,
            self.parents@ == other.parents@,
            self.table() == other.table(),
            forall|q: (usize, usize)| #[trigger] self.pending_merges@.contains(q) ==> other.pending_merges@.contains(q),
        ensures
            self.sound_ok(),
    {
        assert forall|key: (usize, Seq<usize>)| #[trigger] self.table().contains_key(key) implies self.sig_key(
            self.table()[key] as int,
        ) == key by {
            lemma_table_value(other, key);
            self.lemma_sig_key_frame(other, other.table()[key] as int);
        }
        assert forall|k: int| 0 <= k < self.pending_merges@.len() implies self.sig_key(
            (#[trigger] self.pending_merges@[k]).0 as int,
        ) == self.sig_key(self.pending_merges@[k].1 as int) by {
            let q = self.pending_merges@[k];
            assert(self.pending_merges@.contains(q));
            let j = choose|j: int| 0 <= j < other.pending_merges@.len() && other.pending_merges@[j] == q;
            assert(other.pending_merges@[j] == q);
            self.lemma_sig_key_frame(other, q.0 as int);
            self.lemma_sig_key_frame(other, q.1 as int);
        }
    }

    /// The closure facts depend only on the terms, the parents, the table,
    /// the use lists and the queued merges.
    proof fn lemma_closure_frame(self, other: EufTheory)
        requires
            other.closure_ok(),
            self.core_ok(),
            other.core_ok(),
            self.terms@ == other.terms@,
            self.parents@ == other.parents@,
            self.table() == other.table(),
            self.use_views() == other.use_views(),
            forall|p: (usize, usize)| other.pending_merges@.contains(p) ==> self.pending_merges@.contains(p),
        ensures
            self.closure_ok(),
    {
        assert forall|u: int, w: int|
            0 <= u < self.terms@.len() && 0 <= w < self.terms@.len() && #[trigger] other.settled(u, w) implies self.settled(u, w) by {
            self.lemma_settled_frame(other, u, w);
        }
        self.lemma_closure_settled(other);
    }

    /// The closure facts carry over to a state with the same terms, parents,
    /// table and use lists in which every settled pair stays settled.
    proof fn lemma_closure_settled(self, other: EufTheory)
        requires
            other.closure_ok(),
            self.core_ok(),
            other.core_ok(),
            self.terms@ == other.terms@,
            self.parents@ == other.parents@,
            self.table() == other.table(),
            self.use_views() == other.use_views(),
            forall|u: int, w: int|
                0 <= u < self.terms@.len() && 0 <= w < self.terms@.len() && #[trigger] other.settled(u, w) ==> self.settled(u, w),
        ensures
            self.closure_ok(),
    {
        let n = self.terms@.len();
        assert forall|x: int| 0 <= x < n implies #[trigger] self.root(x) == other.root(x) by {
            self.lemma_root_frame(other, x);
        }
        assert forall|u: int, i: int| 0 <= u < n && 0 <= i < self.arity(u) implies #[trigger] self.arg_root(u, i) == other.arg_root(
            u,
            i,
        ) by {
            if let Term::App(_, args) = self.terms@[u] {
                assert(self.terms@[u] == other.terms@[u]);
                assert(forall|k: int| 0 <= k < args.len() ==> args@[k] < n);
                assert(args@[i] < n);
            }
        }
        assert forall|r: int| 0 <= r < n implies #[trigger] self.use_list@[r]@ == other.use_list@[r]@ by {
            assert(self.use_views()[r] == other.use_views()[r]);
        }
        assert forall|u: int| 0 <= u < n && self.is_app(u) implies #[trigger] self.sig_key(u) == other.sig_key(u) by {
            if let Term::App(f, args) = self.terms@[u] {
                assert(self.sig_key(u).1 =~= other.sig_key(u).1);
            }
        }
        assert forall|u: int, i: int| 0 <= u < n && 0 <= i < self.arity(u) implies self.use_list@[
            #[trigger] self.arg_root(u, i)
        ]@.contains(u as usize) by {
            assert(other.use_list@[other.arg_root(u, i)]@.contains(u as usize));
            lemma_root_is_root_arg(other, u, i);
        }
        assert forall|r: int, j: int|
            0 <= r < n && self.parents@[r] == r && 0 <= j < self.use_list@[r]@.len() implies self.uses_in(
            #[trigger] self.use_list@[r]@[j] as int,
            r,
        ) by {
            let x = other.use_list@[r]@[j] as int;
            assert(other.uses_in(x, r));
            assert(other.is_app(x));
            let i = choose|i: int| 0 <= i < other.arity(x) && other.arg_root(x, i) == r;
            assert(self.arg_root(x, i) == r);
        }
        assert forall|u: int| 0 <= u < n && #[trigger] self.is_app(u) implies {
            &&& self.table().contains_key(self.sig_key(u))
            &&& self.settled(u, self.table()[self.sig_key(u)] as int)
        } by {
            assert(other.is_app(u));
            let w = other.table()[other.sig_key(u)];
            assert(other.settled(u, w as int));
            assert(w < n) by {
                lemma_table_value(other, other.sig_key(u));
            }
        }
    }

    /// Adding the term `id` (a variable, or an application whose arguments
    /// `targs` have the representatives `roots`, listed once each in
    /// `distinct`) to the use lists of its argument classes, with its
    /// signature recorded or queued, keeps the closure facts.
    proof fn lemma_closure_added(
        self,
        before: EufTheory,
        mid: EufTheory,
        id: int,
        targs: Seq<usize>,
        roots: Seq<usize>,
        distinct: Seq<usize>,
    )
        requires
            before.wf(),
            self.core_ok(),
            id == before.num_terms(),
            self.num_terms() == id + 1,
            forall|x: int| 0 <= x < id ==> #[trigger] self.terms@[x] == before.terms@[x],
            self.terms@[id] matches Term::App(_, a) ==> a@ == targs,
            self.terms@[id] is Var ==> targs.len() == 0,
            roots.len() == targs.len(),
            forall|k: int| 0 <= k < targs.len() ==> #[trigger] targs[k] < id,
            forall|k: int| 0 <= k < roots.len() ==> #[trigger] roots[k] == before.root(targs[k] as int),
            forall|x: usize| #[trigger] distinct.contains(x) <==> roots.contains(x),
            forall|x: int| 0 <= x < id ==> #[trigger] self.root(x) == before.root(x),
            self.root(id) == id,
            forall|x: int| 0 <= x < id ==> #[trigger] self.parents@[x] == before.parents@[x],
            forall|t: int| 0 <= t < id ==> #[trigger] mid.use_list@[t]@ == before.use_list@[t]@,
            mid.use_list@[id]@.len() == 0,
            forall|t: int| 0 <= t < id + 1 ==> mid.use_list@[t]@.len() <= (#[trigger] self.use_list@[t])@.len(),
            forall|t: int, q: int|
                0 <= t < id + 1 && 0 <= q < self.use_list@[t]@.len() ==> if q < mid.use_list@[t]@.len() {
                    #[trigger] self.use_list@[t]@[q] == mid.use_list@[t]@[q]
                } else {
                    self.use_list@[t]@[q] == id && distinct.contains(t as usize)
                },
            forall|k: int| 0 <= k < distinct.len() ==> (#[trigger] self.use_list@[distinct[k] as int])@.contains(id as usize),
            self.is_app(id) ==> self.table().contains_key(self.sig_key(id)) && (self.table()[self.sig_key(id)] == id
                || self.pending_merges@.contains((id as usize, self.table()[self.sig_key(id)]))),
            forall|key: (usize, Seq<usize>)|
                #[trigger] before.table().contains_key(key) ==> self.table().contains_key(key) && self.table()[key]
                    == before.table()[key],
            forall|p: (usize, usize)| before.pending_merges@.contains(p) ==> #[trigger] self.pending_merges@.contains(p),
        ensures
            self.closure_ok(),
    {
        let n = id + 1;
        assert forall|u: int, i: int| 0 <= u < id && 0 <= i < self.arity(u) implies #[trigger] self.arg_root(u, i)
            == before.arg_root(u, i) by {
            assert(self.terms@[u] == before.terms@[u]);
            if let Term::App(_, args) = before.terms@[u] {
                assert(forall|k: int| 0 <= k < args.len() ==> args@[k] < id);
            }
        }
        assert forall|u: int| 0 <= u < id && self.is_app(u) implies #[trigger] self.sig_key(u) == before.sig_key(u) by {
            assert(self.terms@[u] == before.terms@[u]);
            if let Term::App(_, args) = before.terms@[u] {
                assert forall|i: int| 0 <= i < args.len() implies self.arg_root(u, i) == before.arg_root(u, i) by {
                    assert(0 <= i < self.arity(u));
                }
                assert(self.sig_key(u).1 =~= before.sig_key(u).1);
            }
        }
        assert forall|i: int| 0 <= i < self.arity(id) implies #[trigger] self.arg_root(id, i) == roots[i] by {
            if let Term::App(_, args) = self.terms@[id] {
                assert(args@[i] < id) by {
                    assert(forall|k: int| 0 <= k < args.len() ==> args@[k] < n);
                    assert(roots[i] == before.root(targs[i] as int));
                    assert(targs[i] < id);
                }
            }
        }
        // use lists: each application is in the list of each argument class
        assert forall|u: int, i: int| 0 <= u < self.terms@.len() && 0 <= i < self.arity(u) implies self.use_list@[
            #[trigger] self.arg_root(u, i)
        ]@.contains(u as usize) by {
            if u < id {
                let r = before.arg_root(u, i);
                assert(before.use_list@[r]@.contains(u as usize));
                lemma_root_is_root_arg(before, u, i);
                let q = choose|q: int| 0 <= q < before.use_list@[r]@.len() && before.use_list@[r]@[q] == u as usize;
                assert(self.use_list@[r]@[q] == mid.use_list@[r]@[q]);
            } else {
                let r = roots[i];
                assert(roots.contains(r));
                assert(distinct.contains(r));
                let k = choose|k: int| 0 <= k < distinct.len() && distinct[k] == r;
                assert(self.use_list@[distinct[k] as int]@.contains(id as usize));
            }
        }
        // use lists of classes hold only applications with an argument there
        assert forall|r: int, j: int|
            0 <= r < self.terms@.len() && self.parents@[r] == r && 0 <= j < self.use_list@[r]@.len() implies self.uses_in(
            #[trigger] self.use_list@[r]@[j] as int,
            r,
        ) by {
            if j < mid.use_list@[r]@.len() {
                assert(r < id);
                let x = before.use_list@[r]@[j] as int;
                assert(self.use_list@[r]@[j] == mid.use_list@[r]@[j]);
                assert(before.parents@[r] == r);
                assert(before.is_app(x));
                let i = choose|i: int| 0 <= i < before.arity(x) && before.arg_root(x, i) == r;
                assert(x < id) by {
                    assert(before.use_list@[r]@[j] < id);
                }
                assert(self.terms@[x] == before.terms@[x]);
                assert(self.arg_root(x, i) == r);
                assert(before.uses_in(x, r));
            } else {
                assert(self.use_list@[r]@[j] == id);
                assert(distinct.contains(r as usize));
                assert(roots.contains(r as usize));
                let i = choose|i: int| 0 <= i < roots.len() && roots[i] == r as usize;
                assert(targs.len() > 0);
                assert(self.terms@[id] is App);
                assert(self.arg_root(id, i) == r);
            }
        }
        // every application's signature is recorded for a settled term
        assert forall|u: int| 0 <= u < self.terms@.len() && #[trigger] self.is_app(u) implies {
            &&& self.table().contains_key(self.sig_key(u))
            &&& self.settled(u, self.table()[self.sig_key(u)] as int)
        } by {
            if u < id {
                assert(before.is_app(u)) by {
                    assert(self.terms@[u] == before.terms@[u]);
                }
                let key = before.sig_key(u);
                let w = before.table()[key];
                assert(before.settled(u, w as int));
                lemma_table_value(before, key);
                assert(self.table()[key] == w);
                if before.pending_merges@.contains((u as usize, w)) {
                    assert(self.pending_merges@.contains((u as usize, w)));
                }
            } else {
                let w = self.table()[self.sig_key(id)];
                if w != id {
                    assert(self.pending_merges@.contains((id as usize, w)));
                }
            }
        }
        assert(n == self.terms@.len());
        assert(self.closure_ok());
    }
    /// Merging the class of root `c` into that of root `p` keeps the closure
    /// facts, when the uses `us` of `c` were appended to those of `p`, the
    /// table kept every entry but those of the old signatures of `us`, and
    /// each of `us` had its new signature recorded for a settled term.
    proof fn lemma_closure_merged(self, before: EufTheory, c: int, p: int, us: Seq<usize>)
        requires
            before.wf(),
            self.core_ok(),
            self.terms@ == before.terms@,
            0 <= c < before.num_terms(),
            0 <= p < before.num_terms(),
            c != p,
            before.parents@[c] == c,
            before.parents@[p] == p,
            self.parents@ == before.parents@.update(c, p as usize),
            forall|x: int|
                0 <= x < before.num_terms() ==> #[trigger] self.root(x) == if before.root(x) == c {
                    p
                } else {
                    before.root(x)
                },
            us == before.use_list@[c]@,
            self.use_list@[p]@ == before.use_list@[p]@ + us,
            forall|t: int| 0 <= t < before.num_terms() && t != p ==> #[trigger] self.use_list@[t]@ == before.use_list@[t]@,
            forall|key: (usize, Seq<usize>)|
                #[trigger] before.table().contains_key(key) && (forall|k: int|
                    0 <= k < us.len() ==> key != before.sig_key(#[trigger] us[k] as int)) ==> self.table().contains_key(key)
                    && self.table()[key] == before.table()[key],
            forall|k: int|
                0 <= k < us.len() ==> {
                    &&& self.table().contains_key(self.sig_key(#[trigger] us[k] as int))
                    &&& self.settled(us[k] as int, self.table()[self.sig_key(us[k] as int)] as int)
                },
            forall|q: (usize, usize)| before.pending_merges@.contains(q) ==> #[trigger] self.pending_merges@.contains(q),
        ensures
            self.closure_ok(),
    {
        let n = before.terms@.len();
        assert(before.closure_ok());
        assert(before.uses_ok() && before.uses_exact() && before.sigs_ok());
        // representatives of arguments
        assert forall|u: int, i: int| 0 <= u < n && 0 <= i < self.arity(u) implies #[trigger] self.arg_root(u, i) == if before.arg_root(
            u,
            i,
        ) == c {
            p
        } else {
            before.arg_root(u, i)
        } by {
            if let Term::App(_, args) = before.terms@[u] {
                assert(forall|k: int| 0 <= k < args.len() ==> args@[k] < n);
                assert(args@[i] < n);
            }
        }
        assert forall|u: int, i: int| 0 <= u < n && 0 <= i < before.arity(u) && before.arg_root(u, i) == c implies us.contains(
            u as usize,
        ) by {
            assert(before.use_list@[before.arg_root(u, i)]@.contains(u as usize));
        }
        assert forall|u: int, i: int| 0 <= u < self.terms@.len() && 0 <= i < self.arity(u) implies self.use_list@[
            #[trigger] self.arg_root(u, i)
        ]@.contains(u as usize) by {
            let r0 = before.arg_root(u, i);
            lemma_root_is_root_arg(before, u, i);
            if r0 == c {
                assert(us.contains(u as usize));
                let k = choose|k: int| 0 <= k < us.len() && us[k] == u as usize;
                assert(self.use_list@[p]@[before.use_list@[p]@.len() + k] == u as usize);
            } else {
                assert(before.use_list@[r0]@.contains(u as usize));
                let k = choose|k: int| 0 <= k < before.use_list@[r0]@.len() && before.use_list@[r0]@[k] == u as usize;
                if r0 == p {
                    assert(self.use_list@[p]@[k] == u as usize);
                } else {
                    assert(self.use_list@[r0]@[k] == u as usize);
                }
            }
        }
        assert(self.uses_ok());
        assert forall|r: int, j: int|
            0 <= r < self.terms@.len() && self.parents@[r] == r && 0 <= j < self.use_list@[r]@.len() implies self.uses_in(
            #[trigger] self.use_list@[r]@[j] as int,
            r,
        ) by {
            assert(r != c);
            assert(before.parents@[r] == r);
            let x = self.use_list@[r]@[j] as int;
            let (r0, j0) = if r == p && j >= before.use_list@[p]@.len() {
                (c, j - before.use_list@[p]@.len())
            } else {
                (r, j)
            };
            assert(before.use_list@[r0]@[j0] as int == x);
            assert(before.uses_in(x, r0));
            let i = choose|i: int| 0 <= i < before.arity(x) && before.arg_root(x, i) == r0;
            assert(x < n) by {
                assert(before.use_list@[r0]@[j0] < n);
            }
            assert(self.arg_root(x, i) == r);
        }
        assert(self.uses_exact());
        assert forall|u: int| 0 <= u < self.terms@.len() && #[trigger] self.is_app(u) implies {
            &&& self.table().contains_key(self.sig_key(u))
            &&& self.settled(u, self.table()[self.sig_key(u)] as int)
        } by {
            if us.contains(u as usize) {
                let k = choose|k: int| 0 <= k < us.len() && us[k] == u as usize;
                assert(self.table().contains_key(self.sig_key(us[k] as int)));
            } else {
                // the signature of u did not change
                assert forall|i: int| 0 <= i < before.arity(u) implies before.arg_root(u, i) != c by {}
                assert(self.sig_key(u).1 =~= before.sig_key(u).1);
                assert(self.sig_key(u) == before.sig_key(u));
                let key = before.sig_key(u);
                assert(before.is_app(u));
                let w = before.table()[key];
                assert(before.settled(u, w as int));
                lemma_table_value(before, key);
                assert forall|k: int| 0 <= k < us.len() implies key != before.sig_key(#[trigger] us[k] as int) by {
                    let x = us[k] as int;
                    assert(before.use_list@[c]@[k] as int == x);
                    assert(before.uses_in(x, c));
                    let i = choose|i: int| 0 <= i < before.arity(x) && before.arg_root(x, i) == c;
                    if key == before.sig_key(x) {
                        assert(before.sig_key(x).1[i] == c as usize);
                        assert(key.1.len() == before.arity(u));
                        assert(before.arg_root(u, i) == c) by {
                            assert(key.1[i] == before.arg_root(u, i) as usize);
                            lemma_root_is_root_arg(before, u, i);
                        }
                    }
                }
                assert(self.table()[key] == w);
                before.lemma_root_is_root(u);
                if before.pending_merges@.contains((u as usize, w)) {
                    assert(self.pending_merges@.contains((u as usize, w)));
                }
                if before.root(u) == before.root(w as int) {
                    assert(self.root(u) == self.root(w as int));
                }
            }
        }
        assert(self.sigs_ok());
    }

    /// Signatures depend only on the terms and the parents.
    proof fn lemma_sig_key_frame(self, other: EufTheory, u: int)
        requires
            self.core_ok(),
            other.core_ok(),
            self.parents@ == other.parents@,
            self.terms@ == other.terms@,
            0 <= u < self.num_terms(),
        ensures
            self.sig_key(u) == other.sig_key(u),
    {
        if let Term::App(f, args) = self.terms@[u] {
            assert(forall|k: int| 0 <= k < args.len() ==> args@[k] < self.num_terms());
            assert forall|i: int| 0 <= i < args.len() implies self.arg_root(u, i) == other.arg_root(u, i) by {
                self.lemma_root_frame(other, args@[i] as int);
            }
            assert(self.sig_key(u).1 =~= other.sig_key(u).1);
        }
    }

    /// Being settled carries over to a state with the same parents, more
    /// queued merges and the same merge in flight.
    proof fn lemma_settled_frame(self, other: EufTheory, u: int, w: int)
        requires
            self.core_ok(),
            other.core_ok(),
            self.parents@ == other.parents@,
            self.terms@ == other.terms@,
            0 <= u < self.num_terms(),
            0 <= w < self.num_terms(),
            other.settled(u, w),
            forall|q: (usize, usize)| other.pending_merges@.contains(q) ==> #[trigger] self.pending_merges@.contains(q),
        ensures
            self.settled(u, w),
    {
        self.lemma_root_frame(other, u);
        self.lemma_root_frame(other, w);
        if other.pending_merges@.contains((u as usize, w as usize)) {
            assert(self.pending_merges@.contains((u as usize, w as usize)));
        }
    }

    /// Once no merge is queued, the classes are closed under congruence:
    /// applications with the same symbol and arguments in the same classes
    /// are in the same class.
    pub proof fn lemma_congruence_closed(self)
        requires
            self.wf(),
            self.pending().len() == 0,
        ensures
            forall|u: int, v: int|
                0 <= u < self.num_terms() && 0 <= v < self.num_terms() && #[trigger] self.congruent(u, v) ==> self.root(u)
                    == self.root(v),
    {
        assert forall|u: int, v: int|
            0 <= u < self.num_terms() && 0 <= v < self.num_terms() && #[trigger] self.congruent(u, v) implies self.root(u)
                == self.root(v) by {
            let key = self.sig_key(u);
            let w = self.table()[key];
            assert(self.sigs_ok());
            assert(self.settled(u, w as int));
            assert(self.settled(v, w as int));
            assert(!self.pending_merges@.contains((u as usize, w)));
            assert(!self.pending_merges@.contains((v as usize, w)));
        }
    }

    /// Adding the term `id`, recording its signature for itself or queueing
    /// it with the term already recorded, keeps the soundness facts.
    proof fn lemma_sound_added(self, before: EufTheory, id: int)
        requires
            before.wf(),
            self.core_ok(),
            id == before.num_terms(),
            self.num_terms() == id + 1,
            forall|x: int| 0 <= x < id ==> #[trigger] self.terms@[x] == before.terms@[x],
            forall|x: int| 0 <= x < id ==> #[trigger] self.root(x) == before.root(x),
            forall|key: (usize, Seq<usize>)|
                #[trigger] self.table().contains_key(key) ==> (before.table().contains_key(key) && self.table()[key]
                    == before.table()[key]) || (key == self.sig_key(id) && self.table()[key] == id),
            self.pending_merges@.len() >= before.pending_merges@.len(),
            forall|k: int| 0 <= k < before.pending_merges@.len() ==> #[trigger] self.pending_merges@[k] == before.pending_merges@[k],
            forall|k: int|
                before.pending_merges@.len() <= k < self.pending_merges@.len() ==> {
                    &&& (#[trigger] self.pending_merges@[k]).0 == id
                    &&& self.table().contains_key(self.sig_key(id))
                    &&& self.pending_merges@[k].1 == self.table()[self.sig_key(id)]
                },
        ensures
            self.sound_ok(),
    {
        assert forall|u: int| 0 <= u < id implies #[trigger] self.sig_key(u) == before.sig_key(u) by {
            assert(self.terms@[u] == before.terms@[u]);
            if let Term::App(_, args) = before.terms@[u] {
                assert(forall|k: int| 0 <= k < args.len() ==> args@[k] < id);
                assert forall|i: int| 0 <= i < args.len() implies self.arg_root(u, i) == before.arg_root(u, i) by {}
                assert(self.sig_key(u).1 =~= before.sig_key(u).1);
            }
        }
        assert forall|key: (usize, Seq<usize>)| #[trigger] self.table().contains_key(key) implies self.sig_key(
            self.table()[key] as int,
        ) == key by {
            if before.table().contains_key(key) && self.table()[key] == before.table()[key] {
                lemma_table_value(before, key);
            }
        }
        assert forall|k: int| 0 <= k < self.pending_merges@.len() implies self.sig_key(
            (#[trigger] self.pending_merges@[k]).0 as int,
        ) == self.sig_key(self.pending_merges@[k].1 as int) by {
            if k < before.pending_merges@.len() {
                assert(self.pending_merges@[k] == before.pending_merges@[k]);
                assert(before.sig_key(before.pending_merges@[k].0 as int) == before.sig_key(before.pending_merges@[k].1 as int));
            } else {
                let key = self.sig_key(id);
                assert(self.pending_merges@[k].0 == id);
                assert(self.table().contains_key(key));
                assert(self.sig_key(self.table()[key] as int) == key);
            }
        }
    }

    /// Merging the class of root `c` into that of root `p` keeps the
    /// soundness facts, when the table kept only entries of terms outside
    /// `us` and gained entries of terms of `us` under their new signatures,
    /// and each newly queued merge pairs a term of `us` with the term recorded
    /// for its signature.
    proof fn lemma_sound_merged(self, before: EufTheory, c: int, p: int, us: Seq<usize>)
        requires
            before.wf(),
            self.core_ok(),
            self.terms@ == before.terms@,
            0 <= c < before.num_terms(),
            0 <= p < before.num_terms(),
            c != p,
            before.parents@[c] == c,
            before.parents@[p] == p,
            forall|x: int|
                0 <= x < before.num_terms() ==> #[trigger] self.root(x) == if before.root(x) == c {
                    p
                } else {
                    before.root(x)
                },
            us == before.use_list@[c]@,
            forall|key: (usize, Seq<usize>)|
                #[trigger] self.table().contains_key(key) ==> (before.table().contains_key(key) && self.table()[key]
                    == before.table()[key] && !us.contains(self.table()[key])) || (us.contains(self.table()[key]) && key
                    == self.sig_key(self.table()[key] as int)),
            self.pending_merges@.len() >= before.pending_merges@.len(),
            forall|k: int| 0 <= k < before.pending_merges@.len() ==> #[trigger] self.pending_merges@[k] == before.pending_merges@[k],
            forall|k: int|
                before.pending_merges@.len() <= k < self.pending_merges@.len() ==> {
                    &&& us.contains((#[trigger] self.pending_merges@[k]).0)
                    &&& self.table().contains_key(self.sig_key(self.pending_merges@[k].0 as int))
                    &&& self.pending_merges@[k].1 == self.table()[self.sig_key(self.pending_merges@[k].0 as int)]
                },
        ensures
            self.sound_ok(),
    {
        let n = before.terms@.len();
        assert(before.uses_ok());
        assert forall|u: int, i: int| 0 <= u < n && 0 <= i < self.arity(u) implies #[trigger] self.arg_root(u, i) == if before.arg_root(
            u,
            i,
        ) == c {
            p
        } else {
            before.arg_root(u, i)
        } by {
            if let Term::App(_, args) = before.terms@[u] {
                assert(forall|k: int| 0 <= k < args.len() ==> args@[k] < n);
                assert(args@[i] < n);
            }
        }
        // signatures of terms outside `us` do not change
        assert forall|w: int| 0 <= w < n && !us.contains(w as usize) implies #[trigger] self.sig_key(w) == before.sig_key(w) by {
            if let Term::App(_, args) = before.terms@[w] {
                assert forall|i: int| 0 <= i < args.len() implies self.arg_root(w, i) == before.arg_root(w, i) by {
                    assert(0 <= i < before.arity(w));
                    if before.arg_root(w, i) == c {
                        assert(before.use_list@[before.arg_root(w, i)]@.contains(w as usize));
                    }
                }
                assert(self.sig_key(w).1 =~= before.sig_key(w).1);
            }
        }
        // congruent terms stay congruent
        assert forall|a: int, b: int|
            0 <= a < n && 0 <= b < n && #[trigger] before.sig_key(a) == #[trigger] before.sig_key(b) && before.is_app(a)
                && before.is_app(b) implies self.sig_key(a) == self.sig_key(b) by {
            if let (Term::App(_, xs), Term::App(_, ys)) = (before.terms@[a], before.terms@[b]) {
                assert(xs.len() == before.sig_key(a).1.len());
                assert(ys.len() == before.sig_key(b).1.len());
                assert forall|i: int| 0 <= i < xs.len() implies self.arg_root(a, i) == self.arg_root(b, i) by {
                    assert(before.sig_key(a).1[i] == before.sig_key(b).1[i]);
                    assert(0 <= i < before.arity(a) && 0 <= i < before.arity(b));
                    lemma_root_is_root_arg(before, a, i);
                    lemma_root_is_root_arg(before, b, i);
                    assert(before.arg_root(a, i) == before.arg_root(b, i));
                }
                assert(self.sig_key(a).1 =~= self.sig_key(b).1);
            }
        }
        assert forall|key: (usize, Seq<usize>)| #[trigger] self.table().contains_key(key) implies self.sig_key(
            self.table()[key] as int,
        ) == key by {
            let w = self.table()[key];
            if before.table().contains_key(key) && w == before.table()[key] && !us.contains(w) {
                lemma_table_value(before, key);
            }
        }
        assert forall|k: int| 0 <= k < self.pending_merges@.len() implies self.sig_key(
            (#[trigger] self.pending_merges@[k]).0 as int,
        ) == self.sig_key(self.pending_merges@[k].1 as int) by {
            if k < before.pending_merges@.len() {
                let (a, b) = before.pending_merges@[k];
                assert(self.pending_merges@[k] == (a, b));
                assert(before.sig_key(a as int) == before.sig_key(b as int));
                assert(before.is_app(a as int) && before.is_app(b as int));
            } else {
                let key = self.sig_key(self.pending_merges@[k].0 as int);
                assert(self.table().contains_key(key));
            }
        }
    }

    /// Indices and levels are consistent.
    pub closed spec fn base_ok(self) -> bool {
        self.core_ok() && self.levels_ok()
    }

    /// The number of arguments of `u` (none for a variable).
    pub closed spec fn arity(self, u: int) -> nat {
        match self.terms@[u] {
            Term::App(_, args) => args@.len(),
            Term::Var(_) => 0,
        }
    }

    /// The representative of argument `i` of `u`.
    pub closed spec fn arg_root(self, u: int, i: int) -> int {
        match self.terms@[u] {
            Term::App(_, args) => self.root(args@[i] as int),
            Term::Var(_) => 0,
        }
    }

    /// The key of the signature of `u`: its symbol and the representatives
    /// of its arguments.
    pub closed spec fn sig_key(self, u: int) -> (usize, Seq<usize>) {
        match self.terms@[u] {
            Term::App(f, args) => (f, Seq::new(args@.len(), |i: int| self.arg_root(u, i) as usize)),
            Term::Var(_) => (0, Seq::empty()),
        }
    }

    /// The applications `u` and `v` have the same symbol and arguments with
    /// the same representatives.
    pub open spec fn congruent(self, u: int, v: int) -> bool {
        self.is_app(u) && self.is_app(v) && self.sig_key(u) == self.sig_key(v)
    }

    /// The term `w` recorded for the signature of `u` is in the class of `u`,
    /// or is queued to be merged with it.
    pub closed spec fn settled(self, u: int, w: int) -> bool {
        ||| self.root(u) == self.root(w)
        ||| self.pending_merges@.contains((u as usize, w as usize))
    }

    /// Use lists and the signature table describe the current classes: each
    /// application is in the use list of the class of each argument, each
    /// class's use list holds only applications with an argument in it, and
    /// each application's signature is recorded for a term that is settled
    /// with it.
    pub closed spec fn closure_ok(self) -> bool {
        self.uses_ok() && self.uses_exact() && self.sigs_ok()
    }

    /// Each application is in the use list of the class of each argument.
    pub closed spec fn uses_ok(self) -> bool {
        forall|u: int, i: int|
            0 <= u < self.terms@.len() && 0 <= i < self.arity(u) ==> self.use_list@[#[trigger] self.arg_root(
                u,
                i,
            )]@.contains(u as usize)
    }

    /// The use list of a class holds only applications with an argument in it.
    pub closed spec fn uses_exact(self) -> bool {
        forall|r: int, j: int|
            0 <= r < self.terms@.len() && self.parents@[r] == r && 0 <= j < self.use_list@[r]@.len() ==> self.uses_in(
                #[trigger] self.use_list@[r]@[j] as int,
                r,
            )
    }

    /// `x` is an application with an argument in the class of `r`.
    pub closed spec fn uses_in(self, x: int, r: int) -> bool {
        &&& self.is_app(x)
        &&& exists|i: int| 0 <= i < self.arity(x) && self.arg_root(x, i) == r
    }

    /// Each application's signature is recorded for a term settled with it.
    pub closed spec fn sigs_ok(self) -> bool {
        forall|u: int|
            0 <= u < self.terms@.len() && #[trigger] self.is_app(u) ==> {
                &&& self.table().contains_key(self.sig_key(u))
                &&& self.settled(u, self.table()[self.sig_key(u)] as int)
            }
    }

    /// The decision levels point into the undo trail, and undoing the trail
    /// down to a level gives back the parents saved when it was opened.
    pub closed spec fn levels_ok(self) -> bool {
        &&& self.lims_ok()
        &&& saved_ok(self.parents@, self.undo_trail@, self.trail_lim@, self.saved@)
        &&& snaps_ok(self.table(), self.use_views(), self.terms@, self.undo_trail@, self.trail_lim@, self.snapshots@)
        &&& forall|k: int| 0 <= k < self.snapshots@.len() ==> #[trigger] self.snapshots@[k].parents@ == self.saved@[k]
    }

    /// The level starts lie on the trail, in order.
    pub closed spec fn lims_ok(self) -> bool {
        &&& forall|k: int| 0 <= k < self.trail_lim@.len() ==> #[trigger] self.trail_lim@[k] <= self.undo_trail@.len()
        &&& forall|k: int, l: int| 0 <= k <= l < self.trail_lim@.len() ==> self.trail_lim@[k] <= self.trail_lim@[l]
    }

    /// The use lists, as sequences.
    pub closed spec fn use_views(self) -> Seq<Seq<usize>> {
        Seq::new(self.use_list@.len(), |i: int| self.use_list@[i]@)
    }

    /// Every index held anywhere in the state names a term.
    pub closed spec fn core_ok(self) -> bool {
        let n = self.terms@.len();
        &&& n <= usize::MAX
        &&& self.links_ok()
        &&& self.sizes@.len() == n
        &&& self.use_list@.len() == n
        &&& self.proof_tree@.len() == n
        &&& forall|t: int|
            0 <= t < n ==> match #[trigger] self.terms@[t] {
                Term::App(_, args) => forall|i: int| 0 <= i < args.len() ==> args@[i] < n,
                Term::Var(_) => true,
            }
        &&& forall|t: int, i: int| 0 <= t < n && 0 <= i < self.use_list@[t].len() ==> #[trigger] self.use_list@[t]@[i] < n
        &&& forall|t: int| 0 <= t < n ==> self.edge_ok(t, #[trigger] self.proof_tree@[t])
        &&& forall|k: int|
            0 <= k < self.sig_table@.len() ==> {
                &&& (#[trigger] self.sig_table@[k]).1 < n
                &&& self.terms@[self.sig_table@[k].1 as int] is App
            }
        &&& keys_distinct(self.sig_table@)
        &&& forall|k: int|
            0 <= k < self.pending_merges@.len() ==> {
                &&& (#[trigger] self.pending_merges@[k]).0 < n
                &&& self.pending_merges@[k].1 < n
                &&& self.terms@[self.pending_merges@[k].0 as int] is App
                &&& self.terms@[self.pending_merges@[k].1 as int] is App
            }
        &&& forall|k: int|
            0 <= k < self.disequalities@.len() ==> (#[trigger] self.disequalities@[k]).0 < n && self.disequalities@[k].1 < n
        &&& forall|k: int| 0 <= k < self.undo_trail@.len() ==> self.op_ok(#[trigger] self.undo_trail@[k])
        &&& self.diseq_lim@.len() == self.trail_lim@.len()
        &&& forall|k: int| 0 <= k < self.diseq_lim@.len() ==> #[trigger] self.diseq_lim@[k] <= self.disequalities@.len()
        &&& forall|k: int, l: int| 0 <= k <= l < self.diseq_lim@.len() ==> self.diseq_lim@[k] <= self.diseq_lim@[l]
    }

    /// A theory with no term.
    pub fn new() -> (r: EufTheory)
        ensures
            r.wf(),
            r.num_terms() == 0,
            r.levels() == 0,
    {
        EufTheory {
            parents: Vec::new(),
            sizes: Vec::new(),
            terms: Vec::new(),
            sig_table: Vec::new(),
            use_list: Vec::new(),
            pending_merges: Vec::new(),
            undo_trail: Vec::new(),
            trail_lim: Vec::new(),
            proof_tree: Vec::new(),
            disequalities: Vec::new(),
            diseq_lim: Vec::new(),
            next_func_id: 0,
            rank: Ghost(Seq::empty()),
            rank_max: Ghost(0),
            saved: Ghost(Seq::empty()),
            snapshots: Ghost(Seq::empty()),
        }
    }

    /// A well-formed state has consistent links, sizes and lists, so it can
    /// be searched with [`Self::find`].
    pub proof fn lemma_wf_core_ok(self)
        requires
            self.wf(),
        ensures
            self.core_ok(),
    {
    }

    /// The representative of the class of `term`.
    pub fn find(&self, term: usize) -> (r: usize)
        requires
            self.core_ok(),
            term < self.num_terms(),
        ensures
            r == self.root(term as int),
            r < self.num_terms(),
    {
        let mut t = term;
        while t != self.parents[t]
            invariant
                self.core_ok(),
                t < self.num_terms(),
                self.root(t as int) == self.root(term as int),
            decreases self.rank_max@ - self.rank@[t as int],
        {
            t = self.parents[t];
        }
        t
    }

    /// A fresh function symbol.
    pub fn new_func_id(&mut self) -> (r: usize)
        requires
            old(self).wf(),
            old(self).func_ids() < usize::MAX,
        ensures
            r == old(self).func_ids(),
            final(self).func_ids() == old(self).func_ids() + 1,
            final(self).wf(),
            final(self).num_terms() == old(self).num_terms(),
            final(self).levels() == old(self).levels(),
            final(self).parent_links() == old(self).parent_links(),
    {
        let id = self.next_func_id;
        self.next_func_id = self.next_func_id + 1;
        proof {
            self.lemma_closure_frame(*old(self));
            self.lemma_sound_frame(*old(self));
        }
        id
    }
}

/// A copy of `v`.
fn copy_usizes(v: &Vec<usize>) -> (r: Vec<usize>)
    ensures
        r@ == v@,
{
    let mut out: Vec<usize> = Vec::new();
    let mut i: usize = 0;
    while i < v.len()
        invariant
            i <= v.len(),
            out@ == v@.take(i as int),
        decreases v.len() - i,
    {
        out.push(v[i]);
        proof {
            assert(v@.take(i + 1) =~= v@.take(i as int).push(v@[i as int]));
        }
        i += 1;
    }
    proof {
        assert(v@.take(v.len() as int) =~= v@);
    }
    out
}

/// Whether two signatures have the same symbol and arguments.
fn sig_eq(a: &Signature, b: &Signature) -> (r: bool)
    ensures
        r == (a.f == b.f && a.args@ == b.args@),
{
    if a.f != b.f || a.args.len() != b.args.len() {
        return false;
    }
    let mut i: usize = 0;
    while i < a.args.len()
        invariant
            i <= a.args.len(),
            a.args.len() == b.args.len(),
            forall|k: int| 0 <= k < i ==> a.args@[k] == b.args@[k],
        decreases a.args.len() - i,
    {
        if a.args[i] != b.args[i] {
            return false;
        }
        i += 1;
    }
    proof {
        assert(a.args@ =~= b.args@);
    }
    true
}

impl Signature {
    /// A copy of the signature.
    pub fn dup(&self) -> (r: Signature)
        ensures
            r.f == self.f,
            r.args@ == self.args@,
    {
        Signature { f: self.f, args: copy_usizes(&self.args) }
    }
}

/// The distinct values of `v`, increasing.
fn sorted_distinct(v: &Vec<usize>) -> (r: Vec<usize>)
    ensures
        forall|i: int, j: int| 0 <= i < j < r.len() ==> r@[i] < r@[j],
        forall|x: usize| r@.contains(x) <==> v@.contains(x),
{
    let mut out: Vec<usize> = Vec::new();
    let mut i: usize = 0;
    while i < v.len()
        invariant
            i <= v.len(),
            forall|a: int, b: int| 0 <= a < b < out.len() ==> out@[a] < out@[b],
            forall|x: usize| out@.contains(x) <==> v@.take(i as int).contains(x),
        decreases v.len() - i,
    {
        let x = v[i];
        let mut k: usize = 0;
        while k < out.len() && out[k] < x
            invariant
                k <= out.len(),
                forall|a: int| 0 <= a < k ==> out@[a] < x,
            decreases out.len() - k,
        {
            k += 1;
        }
        let ghost prev = out@;
        proof {
            let t0 = v@.take(i as int);
            assert(v@.take(i + 1) =~= t0.push(x));
            assert forall|y: usize| t0.push(x).contains(y) <==> (t0.contains(y) || y == x) by {
                if t0.push(x).contains(y) {
                    let idx = choose|idx: int| 0 <= idx < t0.push(x).len() && t0.push(x)[idx] == y;
                    if idx < t0.len() {
                        assert(t0[idx] == y);
                    }
                }
                if t0.contains(y) {
                    let idx = choose|idx: int| 0 <= idx < t0.len() && t0[idx] == y;
                    assert(t0.push(x)[idx] == y);
                }
                if y == x {
                    assert(t0.push(x)[t0.len() as int] == x);
                }
            }
        }
        if k < out.len() && out[k] == x {
            proof {
                assert(out@[k as int] == x);
                assert forall|y: usize| out@.contains(y) <==> (prev.contains(y) || y == x) by {
                    if y == x {
                        assert(out@.contains(x));
                    }
                }
            }
        } else {
            out.insert(k, x);
            proof {
                assert forall|a: int, b: int| 0 <= a < b < out@.len() implies out@[a] < out@[b] by {
                    if a < k && b == k {
                    } else if a < k && b > k {
                        assert(prev[b - 1] == out@[b]);
                        if k < prev.len() {
                            assert(prev[k as int] > x);
                            if k < b - 1 {
                                assert(prev[k as int] < prev[b - 1]);
                            }
                        }
                    } else if a == k {
                        assert(prev[b - 1] == out@[b]);
                        assert(prev[k as int] > x);
                        if k < b - 1 {
                            assert(prev[k as int] < prev[b - 1]);
                        }
                    } else if a > k {
                        assert(prev[a - 1] == out@[a]);
                        assert(prev[b - 1] == out@[b]);
                    }
                }
                assert forall|y: usize| out@.contains(y) <==> (prev.contains(y) || y == x) by {
                    if out@.contains(y) {
                        let idx = choose|idx: int| 0 <= idx < out@.len() && out@[idx] == y;
                        if idx < k {
                            assert(prev[idx] == y);
                        } else if idx > k {
                            assert(prev[idx - 1] == y);
                        }
                    }
                    if prev.contains(y) {
                        let idx = choose|idx: int| 0 <= idx < prev.len() && prev[idx] == y;
                        if idx < k {
                            assert(out@[idx] == y);
                        } else {
                            assert(out@[idx + 1] == y);
                        }
                    }
                    if y == x {
                        assert(out@[k as int] == x);
                    }
                }
            }
        }
        proof {
            let t0 = v@.take(i as int);
            assert forall|y: usize| #[trigger] out@.contains(y) <==> v@.take(i + 1).contains(y) by {
                assert(v@.take(i + 1) =~= t0.push(x));
                assert(prev.contains(y) <==> t0.contains(y));
                assert(t0.push(x).contains(y) <==> (t0.contains(y) || y == x));
            }
        }
        i += 1;
    }
    proof {
        assert(v@.take(v.len() as int) =~= v@);
    }
    out
}

/// Takes the vector at `i` out of `v`, leaving an empty one.
fn take_at(v: &mut Vec<Vec<usize>>, i: usize) -> (r: Vec<usize>)
    requires
        i < old(v).len(),
    ensures
        r@ == old(v)@[i as int]@,
        final(v).len() == old(v).len(),
        final(v)@[i as int]@ == Seq::<usize>::empty(),
        forall|k: int| 0 <= k < old(v).len() && k != i ==> #[trigger] final(v)@[k] == old(v)@[k],
{
    v.push(Vec::new());
    v.swap_remove(i)
}

/// Puts `x` at `i` in `v`.
fn put_at(v: &mut Vec<Vec<usize>>, i: usize, x: Vec<usize>)
    requires
        i < old(v).len(),
    ensures
        final(v).len() == old(v).len(),
        final(v)@[i as int] == x,
        forall|k: int| 0 <= k < old(v).len() && k != i ==> #[trigger] final(v)@[k] == old(v)@[k],
{
    v.push(x);
    let _ = v.swap_remove(i);
}

impl EufTheory {
    /// The signature of `term_id` when it is an application: its symbol and
    /// the representatives of its arguments.
    fn signature(&self, term_id: usize) -> (r: Option<Signature>)
        requires
            self.core_ok(),
            term_id < self.num_terms(),
        ensures
            r is Some <==> self.is_app(term_id as int),
            r matches Some(sig) ==> key_of(sig) == self.sig_key(term_id as int),
            r matches Some(sig) ==> {
                &&& self.terms@[term_id as int] matches Term::App(f, args) && sig.f == f && sig.args.len() == args.len()
                    && forall|i: int| 0 <= i < args.len() ==> sig.args@[i] == self.root(args@[i] as int)
            },
    {
        match &self.terms[term_id] {
            Term::App(f, args) => {
                let mut out: Vec<usize> = Vec::new();
                let mut i: usize = 0;
                proof {
                    assert(forall|k: int| 0 <= k < args.len() ==> args@[k] < self.num_terms());
                }
                while i < args.len()
                    invariant
                        self.core_ok(),
                        self.terms@[term_id as int] == Term::App(*f, *args),
                        forall|k: int| 0 <= k < args.len() ==> args@[k] < self.num_terms(),
                        i <= args.len(),
                        out.len() == i,
                        forall|k: int| 0 <= k < i ==> out@[k] == self.root(args@[k] as int),
                    decreases args.len() - i,
                {
                    let r = self.find(args[i]);
                    out.push(r);
                    i += 1;
                }
                Some(Signature { f: *f, args: out })
            },
            Term::Var(_) => None,
        }
    }

    /// The term recorded for `sig` in the signature table.
    fn table_get(&self, sig: &Signature) -> (r: Option<usize>)
        requires
            self.core_ok(),
        ensures
            r matches Some(t) ==> t < self.num_terms() && self.is_app(t as int),
            r is Some <==> self.table().contains_key(key_of(*sig)),
            r matches Some(t) ==> self.table()[key_of(*sig)] == t,
    {
        let mut k: usize = 0;
        while k < self.sig_table.len()
            invariant
                self.core_ok(),
                k <= self.sig_table.len(),
                forall|i: int| 0 <= i < k ==> key_of(#[trigger] self.sig_table@[i].0) != key_of(*sig),
            decreases self.sig_table.len() - k,
        {
            if sig_eq(&self.sig_table[k].0, sig) {
                proof {
                    lemma_table_at(self.sig_table@, k as int);
                }
                return Some(self.sig_table[k].1);
            }
            k += 1;
        }
        proof {
            if self.table().contains_key(key_of(*sig)) {
                let i = choose|i: int| 0 <= i < self.sig_table@.len() && key_of(self.sig_table@[i].0) == key_of(*sig);
                assert(key_of(self.sig_table@[i].0) != key_of(*sig));
            }
        }
        None
    }

    /// The signature table as a map from keys to terms.
    pub closed spec fn table(self) -> Map<(usize, Seq<usize>), usize> {
        table_map(self.sig_table@)
    }

    /// Removes the entry of `sig` from the signature table.
    fn table_remove(&mut self, sig: &Signature)
        requires
            old(self).core_ok(),
        ensures
            final(self).core_ok(),
            final(self).same_but_table(*old(self)),
            final(self).table() == old(self).table().remove(key_of(*sig)),
    {
        let ghost t0 = self.sig_table@;
        let mut k: usize = 0;
        while k < self.sig_table.len()
            invariant
                self.core_ok(),
                k <= self.sig_table.len(),
                self.same_but_table(*old(self)),
                self.sig_table@ == t0,
                t0 == old(self).sig_table@,
                forall|i: int| 0 <= i < k ==> key_of(#[trigger] t0[i].0) != key_of(*sig),
            decreases self.sig_table.len() - k,
        {
            if sig_eq(&self.sig_table[k].0, sig) {
                let ghost before = *self;
                let _ = self.sig_table.remove(k);
                proof {
                    let t1 = self.sig_table@;
                    assert forall|q: int| 0 <= q < t1.len() implies #[trigger] t1[q] == (if q < k {
                        t0[q]
                    } else {
                        t0[q + 1]
                    }) by {}
                    assert forall|q: int| 0 <= q < t1.len() implies {
                        &&& (#[trigger] self.sig_table@[q]).1 < self.terms@.len()
                        &&& self.terms@[self.sig_table@[q].1 as int] is App
                    } by {
                        if q < k {
                            assert(self.sig_table@[q] == before.sig_table@[q]);
                        } else {
                            assert(self.sig_table@[q] == before.sig_table@[q + 1]);
                        }
                    }
                    assert forall|p: int, q: int| 0 <= p < q < t1.len() implies key_of(#[trigger] t1[p].0) != key_of(
                        #[trigger] t1[q].0,
                    ) by {
                        let p0 = if p < k { p } else { p + 1 };
                        let q0 = if q < k { q } else { q + 1 };
                        assert(t1[p] == t0[p0] && t1[q] == t0[q0]);
                        assert(key_of(t0[p0].0) != key_of(t0[q0].0));
                    }
                    let key = key_of(*sig);
                    assert(key_of(t0[k as int].0) == key);
                    assert forall|kk: (usize, Seq<usize>)| #[trigger] table_map(t1).contains_key(kk) <==> table_map(
                        t0,
                    ).remove(key).contains_key(kk) by {
                        if table_map(t1).contains_key(kk) {
                            let q = choose|q: int| 0 <= q < t1.len() && key_of(t1[q].0) == kk;
                            let q0 = if q < k { q } else { q + 1 };
                            assert(key_of(t0[q0].0) == kk);
                            assert(kk != key) by {
                                if q0 != k {
                                    if q0 < k {
                                        assert(key_of(t0[q0].0) != key_of(t0[k as int].0));
                                    } else {
                                        assert(key_of(t0[k as int].0) != key_of(t0[q0].0));
                                    }
                                }
                            }
                        }
                        if table_map(t0).remove(key).contains_key(kk) {
                            let q0 = choose|q0: int| 0 <= q0 < t0.len() && key_of(t0[q0].0) == kk;
                            assert(q0 != k);
                            let q = if q0 < k { q0 } else { q0 - 1 };
                            assert(t1[q] == t0[q0]);
                        }
                    }
                    assert forall|kk: (usize, Seq<usize>)| #[trigger] table_map(t1).contains_key(kk) implies table_map(t1)[kk]
                        == table_map(t0).remove(key)[kk] by {
                        let q = choose|q: int| 0 <= q < t1.len() && key_of(t1[q].0) == kk;
                        lemma_table_at(t1, q);
                        let q0 = if q < k { q } else { q + 1 };
                        assert(t1[q] == t0[q0]);
                        lemma_table_at(t0, q0);
                    }
                    assert(table_map(t1) =~= table_map(t0).remove(key));
                }
                return;
            }
            k += 1;
        }
        proof {
            let key = key_of(*sig);
            assert(!table_map(t0).contains_key(key)) by {
                if table_map(t0).contains_key(key) {
                    let i = choose|i: int| 0 <= i < t0.len() && key_of(t0[i].0) == key;
                    assert(key_of(t0[i].0) != key);
                }
            }
            assert(table_map(t0) =~= table_map(t0).remove(key));
        }
    }

    /// Records `term` for `sig` in the signature table, replacing any entry.
    fn table_insert(&mut self, sig: Signature, term: usize)
        requires
            old(self).core_ok(),
            term < old(self).num_terms(),
            old(self).is_app(term as int),
        ensures
            final(self).core_ok(),
            final(self).same_but_table(*old(self)),
            final(self).table() == old(self).table().insert(key_of(sig), term),
    {
        let ghost t0 = self.sig_table@;
        let ghost key = key_of(sig);
        let mut k: usize = 0;
        while k < self.sig_table.len()
            invariant
                self.core_ok(),
                k <= self.sig_table.len(),
                term < self.num_terms(),
                self.is_app(term as int),
                self.same_but_table(*old(self)),
                self.sig_table@ == t0,
                t0 == old(self).sig_table@,
                key == key_of(sig),
                forall|i: int| 0 <= i < k ==> key_of(#[trigger] t0[i].0) != key,
            decreases self.sig_table.len() - k,
        {
            if sig_eq(&self.sig_table[k].0, &sig) {
                self.sig_table.set(k, (sig, term));
                proof {
                    let t1 = self.sig_table@;
                    assert forall|q: int| 0 <= q < t1.len() implies {
                        &&& (#[trigger] self.sig_table@[q]).1 < self.terms@.len()
                        &&& self.terms@[self.sig_table@[q].1 as int] is App
                    } by {
                        if q != k {
                            assert(t1[q] == t0[q]);
                        }
                    }
                    assert forall|p: int, q: int| 0 <= p < q < t1.len() implies key_of(#[trigger] t1[p].0) != key_of(
                        #[trigger] t1[q].0,
                    ) by {
                        assert(key_of(t1[p].0) == key_of(t0[p].0));
                        assert(key_of(t1[q].0) == key_of(t0[q].0));
                    }
                    assert forall|kk: (usize, Seq<usize>)| #[trigger] table_map(t1).contains_key(kk) <==> table_map(
                        t0,
                    ).insert(key, term).contains_key(kk) by {
                        if table_map(t1).contains_key(kk) {
                            let q = choose|q: int| 0 <= q < t1.len() && key_of(t1[q].0) == kk;
                            assert(key_of(t0[q].0) == kk);
                        }
                        if table_map(t0).contains_key(kk) {
                            let q = choose|q: int| 0 <= q < t0.len() && key_of(t0[q].0) == kk;
                            assert(key_of(t1[q].0) == kk);
                        }
                        if kk == key {
                            assert(key_of(t1[k as int].0) == kk);
                        }
                    }
                    assert forall|kk: (usize, Seq<usize>)| #[trigger] table_map(t1).contains_key(kk) implies table_map(t1)[kk]
                        == table_map(t0).insert(key, term)[kk] by {
                        let q = choose|q: int| 0 <= q < t1.len() && key_of(t1[q].0) == kk;
                        lemma_table_at(t1, q);
                        if q != k {
                            assert(t1[q] == t0[q]);
                            lemma_table_at(t0, q);
                            assert(kk != key) by {
                                if q < k {
                                    assert(key_of(t1[q].0) != key_of(t1[k as int].0));
                                } else {
                                    assert(key_of(t1[k as int].0) != key_of(t1[q].0));
                                }
                            }
                        }
                    }
                    assert(table_map(t1) =~= table_map(t0).insert(key, term));
                }
                return;
            }
            k += 1;
        }
        self.sig_table.push((sig, term));
        proof {
            let t1 = self.sig_table@;
            assert forall|q: int| 0 <= q < t1.len() implies {
                &&& (#[trigger] self.sig_table@[q]).1 < self.terms@.len()
                &&& self.terms@[self.sig_table@[q].1 as int] is App
            } by {
                if q < t0.len() {
                    assert(t1[q] == t0[q]);
                }
            }
            assert forall|p: int, q: int| 0 <= p < q < t1.len() implies key_of(#[trigger] t1[p].0) != key_of(#[trigger] t1[q].0) by {
                assert(t1[p] == t0[p]);
                if q < t0.len() {
                    assert(t1[q] == t0[q]);
                }
            }
            assert forall|kk: (usize, Seq<usize>)| #[trigger] table_map(t1).contains_key(kk) <==> table_map(t0).insert(
                key,
                term,
            ).contains_key(kk) by {
                if table_map(t1).contains_key(kk) {
                    let q = choose|q: int| 0 <= q < t1.len() && key_of(t1[q].0) == kk;
                    if q < t0.len() {
                        assert(t1[q] == t0[q]);
                    }
                }
                if table_map(t0).contains_key(kk) {
                    let q = choose|q: int| 0 <= q < t0.len() && key_of(t0[q].0) == kk;
                    assert(t1[q] == t0[q]);
                }
                if kk == key {
                    assert(key_of(t1[t0.len() as int].0) == kk);
                }
            }
            assert forall|kk: (usize, Seq<usize>)| #[trigger] table_map(t1).contains_key(kk) implies table_map(t1)[kk]
                == table_map(t0).insert(key, term)[kk] by {
                let q = choose|q: int| 0 <= q < t1.len() && key_of(t1[q].0) == kk;
                lemma_table_at(t1, q);
                if q < t0.len() {
                    assert(t1[q] == t0[q]);
                    lemma_table_at(t0, q);
                }
            }
            assert(table_map(t1) =~= table_map(t0).insert(key, term));
        }
    }

    /// Everything but the signature table is as in `old`.
    pub closed spec fn same_but_table(self, old: EufTheory) -> bool {
        &&& self.parents == old.parents
        &&& self.sizes == old.sizes
        &&& self.terms == old.terms
        &&& self.use_list == old.use_list
        &&& self.pending_merges == old.pending_merges
        &&& self.undo_trail == old.undo_trail
        &&& self.trail_lim == old.trail_lim
        &&& self.proof_tree == old.proof_tree
        &&& self.disequalities == old.disequalities
        &&& self.diseq_lim == old.diseq_lim
        &&& self.next_func_id == old.next_func_id
        &&& self.rank == old.rank
        &&& self.rank_max == old.rank_max
        &&& self.saved == old.saved
        &&& self.snapshots == old.snapshots
    }

    /// Representatives depend only on the parents and ranks.
    proof fn lemma_root_frame(self, other: EufTheory, t: int)
        requires
            self.links_ok(),
            other.links_ok(),
            self.parents@ == other.parents@,
            self.terms@.len() == other.terms@.len(),
            0 <= t < self.num_terms(),
        ensures
            self.root(t) == other.root(t),
        decreases self.height(t),
    {
        if self.parents@[t] != t {
            self.lemma_root_frame(other, self.parents@[t] as int);
        }
    }

    /// The representative of a term is a root of its class.
    proof fn lemma_root_is_root(self, t: int)
        requires
            self.links_ok(),
            0 <= t < self.num_terms(),
        ensures
            0 <= self.root(t) < self.num_terms(),
            self.parents@[self.root(t)] == self.root(t),
        decreases self.height(t),
    {
        if self.parents@[t] != t {
            self.lemma_root_is_root(self.parents@[t] as int);
        }
    }

    /// Adds a term, made its own class; an application whose signature is
    /// already recorded is queued for merging with the recorded term.
    #[verifier::spinoff_prover]
    fn add_term_internal(&mut self, term: Term) -> (r: usize)
        requires
            old(self).wf(),
            old(self).levels() == 0,
            old(self).num_terms() < usize::MAX,
            term matches Term::App(_, args) ==> forall|i: int| 0 <= i < args.len() ==> args@[i] < old(self).num_terms(),
        ensures
            final(self).wf(),
            r == old(self).num_terms(),
            final(self).num_terms() == old(self).num_terms() + 1,
            final(self).levels() == 0,
            final(self).func_ids() == old(self).func_ids(),
            final(self).root(r as int) == r,
            forall|x: int| 0 <= x < old(self).num_terms() ==> #[trigger] final(self).root(x) == old(self).root(x),
            final(self).is_app(r as int) == (term is App),
            forall|x: int| 0 <= x < old(self).num_terms() ==> #[trigger] final(self).is_app(x) == old(self).is_app(x),
            final(self).terms@ == old(self).terms@.push(term),
    {
        let id = self.terms.len();
        let ghost term_is_app = term is App;
        let ghost targs: Seq<usize> = match &term {
            Term::App(_, a) => a@,
            Term::Var(_) => Seq::empty(),
        };
        let mut roots: Vec<usize> = Vec::new();
        if let Term::App(_, args) = &term {
            let mut i: usize = 0;
            while i < args.len()
                invariant
                    self.wf(),
                    forall|k: int| 0 <= k < args.len() ==> args@[k] < self.num_terms(),
                    i <= args.len(),
                    roots.len() == i,
                    targs == args@,
                    forall|k: int| 0 <= k < roots.len() ==> roots@[k] < self.num_terms(),
                    forall|k: int| 0 <= k < roots.len() ==> roots@[k] == self.root(args@[k] as int),
                decreases args.len() - i,
            {
                let r = self.find(args[i]);
                roots.push(r);
                i += 1;
            }
        }
        let distinct = sorted_distinct(&roots);
        proof {
            assert forall|k: int| 0 <= k < distinct.len() implies distinct@[k] < id by {
                assert(distinct@.contains(distinct@[k]));
                assert(roots@.contains(distinct@[k]));
            }
        }
        let ghost before = *self;
        self.parents.push(id);
        self.sizes.push(1);
        self.use_list.push(Vec::new());
        self.proof_tree.push(None);
        self.terms.push(term);
        proof {
            self.rank@ = self.rank@.push(0);
        }
        proof {
            assert(self.links_ok()) by {
                assert forall|t: int| 0 <= t < self.terms@.len() implies (#[trigger] self.parents@[t]) < self.terms@.len() by {
                    if t < id {
                        assert(self.parents@[t] == before.parents@[t]);
                    }
                }
                assert forall|t: int| 0 <= t < self.terms@.len() implies #[trigger] self.rank@[t] <= self.rank_max@ by {
                    if t < id {
                        assert(self.rank@[t] == before.rank@[t]);
                    }
                }
                assert forall|t: int| 0 <= t < self.terms@.len() && #[trigger] self.parents@[t] != t implies self.rank@[self.parents@[t] as int]
                    > self.rank@[t] by {
                    assert(t < id);
                    assert(self.parents@[t] == before.parents@[t]);
                    assert(before.parents@[t] < id);
                }
            }
            assert forall|x: int| 0 <= x < before.num_terms() implies #[trigger] self.root(x) == before.root(x) by {
                self.lemma_root_extend(before, x);
            }
        }
        let ghost mid = *self;
        let mut j: usize = 0;
        while j < distinct.len()
            invariant
                mid.links_ok(),
                self.parents == mid.parents,
                self.sizes == mid.sizes,
                self.terms == mid.terms,
                self.sig_table == mid.sig_table,
                self.pending_merges == mid.pending_merges,
                self.undo_trail == mid.undo_trail,
                self.trail_lim == mid.trail_lim,
                self.proof_tree == mid.proof_tree,
                self.disequalities == mid.disequalities,
                self.diseq_lim == mid.diseq_lim,
                self.next_func_id == mid.next_func_id,
                self.rank == mid.rank,
                self.rank_max == mid.rank_max,
                self.saved == mid.saved,
                self.snapshots == mid.snapshots,
                self.terms@.len() == id + 1,
                self.use_list@.len() == id + 1,
                forall|t: int| 0 <= t < id + 1 ==> mid.use_list@[t]@.len() <= (#[trigger] self.use_list@[t])@.len(),
                forall|t: int, q: int|
                    0 <= t < id + 1 && 0 <= q < self.use_list@[t]@.len() ==> if q < mid.use_list@[t]@.len() {
                        #[trigger] self.use_list@[t]@[q] == mid.use_list@[t]@[q]
                    } else {
                        self.use_list@[t]@[q] == id && distinct@.contains(t as usize)
                    },
                forall|k: int| 0 <= k < j ==> (#[trigger] self.use_list@[distinct@[k] as int])@.contains(id),
                forall|a: int, b: int| 0 <= a < b < distinct.len() ==> distinct@[a] < distinct@[b],
                forall|t: int, i: int|
                    0 <= t < self.terms@.len() && 0 <= i < self.use_list@[t].len() ==> #[trigger] self.use_list@[t]@[i]
                        < self.terms@.len(),
                forall|k: int| 0 <= k < distinct.len() ==> distinct@[k] < id,
                j <= distinct.len(),
            decreases distinct.len() - j,
        {
            let r = distinct[j];
            let ghost ul = self.use_list@;
            let mut l = take_at(&mut self.use_list, r);
            l.push(id);
            put_at(&mut self.use_list, r, l);
            proof {
                assert forall|t: int, i: int|
                    0 <= t < self.terms@.len() && 0 <= i < self.use_list@[t].len() implies #[trigger] self.use_list@[t]@[i]
                        < self.terms@.len() by {
                    if t != r {
                        assert(self.use_list@[t] == ul[t]);
                    } else if i < ul[t].len() {
                        assert(self.use_list@[t]@[i] == ul[t]@[i]);
                    }
                }
                assert(distinct@.contains(r));
                assert forall|t: int| 0 <= t < id + 1 implies mid.use_list@[t]@.len() <= (#[trigger] self.use_list@[t])@.len() by {
                    if t != r {
                        assert(self.use_list@[t] == ul[t]);
                    }
                }
                assert forall|t: int, q: int| 0 <= t < id + 1 && 0 <= q < self.use_list@[t]@.len() implies if q
                    < mid.use_list@[t]@.len() {
                    #[trigger] self.use_list@[t]@[q] == mid.use_list@[t]@[q]
                } else {
                    self.use_list@[t]@[q] == id && distinct@.contains(t as usize)
                } by {
                    if t != r {
                        assert(self.use_list@[t] == ul[t]);
                    } else if q < ul[t]@.len() {
                        assert(self.use_list@[t]@[q] == ul[t]@[q]);
                    }
                }
                assert forall|k: int| 0 <= k < j + 1 implies (#[trigger] self.use_list@[distinct@[k] as int])@.contains(id) by {
                    if k == j {
                        assert(self.use_list@[r as int]@[self.use_list@[r as int]@.len() - 1] == id);
                    } else {
                        assert(distinct@[k] != r);
                        assert(self.use_list@[distinct@[k] as int] == ul[distinct@[k] as int]);
                    }
                }
            }
            j += 1;
        }
        proof {
            assert(before.snapshots@.len() == 0);
            assert(snaps_ok(self.table(), self.use_views(), self.terms@, self.undo_trail@, self.trail_lim@, self.snapshots@));
            assert(self.base_ok()) by {
                assert forall|t: int| 0 <= t < self.terms@.len() implies match #[trigger] self.terms@[t] {
                    Term::App(_, args) => forall|i: int| 0 <= i < args.len() ==> args@[i] < self.terms@.len(),
                    Term::Var(_) => true,
                } by {
                    if t < id {
                        assert(self.terms@[t] == before.terms@[t]);
                    }
                }
                assert forall|t: int| 0 <= t < self.terms@.len() implies self.edge_ok(t, #[trigger] self.proof_tree@[t]) by {
                    if t < id {
                        assert(self.proof_tree@[t] == before.proof_tree@[t]);
                    }
                }
                assert forall|k: int| 0 <= k < self.sig_table@.len() implies {
                    &&& (#[trigger] self.sig_table@[k]).1 < self.terms@.len()
                    &&& self.terms@[self.sig_table@[k].1 as int] is App
                } by {
                    assert(self.terms@[before.sig_table@[k].1 as int] == before.terms@[before.sig_table@[k].1 as int]);
                }
                assert forall|k: int| 0 <= k < self.pending_merges@.len() implies {
                    &&& (#[trigger] self.pending_merges@[k]).0 < self.terms@.len()
                    &&& self.pending_merges@[k].1 < self.terms@.len()
                    &&& self.terms@[self.pending_merges@[k].0 as int] is App
                    &&& self.terms@[self.pending_merges@[k].1 as int] is App
                } by {
                    let (a, b) = before.pending_merges@[k];
                    assert(self.terms@[a as int] == before.terms@[a as int]);
                    assert(self.terms@[b as int] == before.terms@[b as int]);
                }
                assert forall|k: int| 0 <= k < self.undo_trail@.len() implies match #[trigger] self.undo_trail@[k] {
                    EufUndoOp::Merged { child, parent, .. } => child < self.terms@.len() && parent < self.terms@.len(),
                    EufUndoOp::AppendedUseList { parent, .. } => parent < self.terms@.len(),
                    EufUndoOp::ProofRerooted { changes } => forall|i: int|
                        0 <= i < changes.len() ==> changes@[i].0 < self.terms@.len() && self.edge_ok(changes@[i].0 as int, changes@[i].1),
                    EufUndoOp::SigInserted { .. } => true,
                    EufUndoOp::SigRemoved { term, .. } => term < self.terms@.len() && self.terms@[term as int] is App,
                } by {
                    if let EufUndoOp::SigRemoved { term, .. } = self.undo_trail@[k] {
                        assert(self.terms@[term as int] == before.terms@[term as int]);
                    }
                }
            }
            assert forall|x: int| 0 <= x < id + 1 implies #[trigger] self.root(x) == mid.root(x) by {
                self.lemma_root_frame(mid, x);
            }
        }
        let ghost mid2 = *self;
        let ghost key_id = mid2.sig_key(id as int);
        if let Some(sig) = self.signature(id) {
            match self.table_get(&sig) {
                Some(existing) => {
                    self.pending_merges.push((id, existing));
                    proof {
                        assert(self.pending_merges@[self.pending_merges@.len() - 1] == (id, existing));
                        assert(self.pending_merges@.contains((id, existing)));
                        assert(self.table()[key_id] == existing);
                        assert forall|p: (usize, usize)| mid2.pending_merges@.contains(p) implies #[trigger] self.pending_merges@.contains(
                            p,
                        ) by {
                            let i = choose|i: int| 0 <= i < mid2.pending_merges@.len() && mid2.pending_merges@[i] == p;
                            assert(self.pending_merges@[i] == p);
                        }
                        assert forall|k: int| 0 <= k < self.pending_merges@.len() implies {
                            &&& (#[trigger] self.pending_merges@[k]).0 < self.terms@.len()
                            &&& self.pending_merges@[k].1 < self.terms@.len()
                            &&& self.terms@[self.pending_merges@[k].0 as int] is App
                            &&& self.terms@[self.pending_merges@[k].1 as int] is App
                        } by {
                            if k < mid2.pending_merges@.len() {
                                assert(self.pending_merges@[k] == mid2.pending_merges@[k]);
                            }
                        }
                    }
                },
                None => {
                    self.table_insert(sig, id);
                },
            }
        }
        proof {
            assert forall|x: int| 0 <= x < id + 1 implies #[trigger] self.root(x) == mid2.root(x) by {
                self.lemma_root_frame(mid2, x);
            }
            assert(self.root(id as int) == id);
            assert(self.terms@[id as int] is App == term_is_app);
            assert forall|x: int| 0 <= x < before.num_terms() implies #[trigger] self.is_app(x) == before.is_app(x) by {
                assert(self.terms@[x] == before.terms@[x]);
            }
            if self.is_app(id as int) {
                assert(self.sig_key(id as int).1 =~= key_id.1) by {
                    if let Term::App(_, args) = self.terms@[id as int] {
                        assert(forall|k: int| 0 <= k < args.len() ==> args@[k] < id + 1);
                        assert forall|i: int| 0 <= i < args.len() implies self.arg_root(id as int, i) == mid2.arg_root(
                            id as int,
                            i,
                        ) by {
                            assert(self.root(args@[i] as int) == mid2.root(args@[i] as int));
                        }
                    }
                }
            }
            if self.is_app(id as int) {
                assert(self.sig_key(id as int) == key_id);
                assert(self.table().contains_key(key_id));
            }
            assert(self.use_list == mid2.use_list);
            assert forall|t: int, q: int|
                0 <= t < id + 1 && 0 <= q < self.use_list@[t]@.len() implies if q < mid.use_list@[t]@.len() {
                    #[trigger] self.use_list@[t]@[q] == mid.use_list@[t]@[q]
                } else {
                    self.use_list@[t]@[q] == id && distinct@.contains(t as usize)
                } by {
                assert(self.use_list@[t]@[q] == mid2.use_list@[t]@[q]);
            }
            self.lemma_closure_added(before, mid, id as int, targs, roots@, distinct@);
            assert forall|key: (usize, Seq<usize>)| #[trigger] self.table().contains_key(key) implies (before.table().contains_key(key)
                && self.table()[key] == before.table()[key]) || (key == self.sig_key(id as int) && self.table()[key] == id) by {
                assert(mid2.table() == before.table());
            }
            assert forall|k: int| 0 <= k < before.pending_merges@.len() implies #[trigger] self.pending_merges@[k]
                == before.pending_merges@[k] by {
                assert(mid2.pending_merges@ == before.pending_merges@);
            }
            self.lemma_sound_added(before, id as int);
        }
        id
    }

    /// Makes the root `child` point to the root `parent`, recording the
    /// merge on the undo trail.
    fn link(&mut self, child: usize, parent: usize)
        requires
            old(self).base_ok(),
            child < old(self).num_terms(),
            parent < old(self).num_terms(),
            child != parent,
            old(self).parents@[child as int] == child,
            old(self).parents@[parent as int] == parent,
        ensures
            final(self).base_ok(),
            final(self).parents@ == old(self).parents@.update(child as int, parent),
            final(self).undo_trail@ == old(self).undo_trail@.push(
                EufUndoOp::Merged { child, old_size: old(self).sizes@[parent as int], parent },
            ),
            final(self).terms == old(self).terms,
            final(self).sig_table == old(self).sig_table,
            final(self).use_list == old(self).use_list,
            final(self).pending_merges == old(self).pending_merges,
            final(self).trail_lim == old(self).trail_lim,
            final(self).proof_tree == old(self).proof_tree,
            final(self).disequalities == old(self).disequalities,
            final(self).diseq_lim == old(self).diseq_lim,
            final(self).next_func_id == old(self).next_func_id,
            final(self).saved == old(self).saved,
            final(self).snapshots == old(self).snapshots,
            final(self).classes() + 1 == old(self).classes(),
            forall|x: int|
                0 <= x < old(self).num_terms() ==> #[trigger] final(self).root(x) == if old(self).root(x) == child {
                    parent as int
                } else {
                    old(self).root(x)
                },
    {
        let ghost before = *self;
        let old_size = self.sizes[parent];
        let op = EufUndoOp::Merged { child, old_size, parent };
        proof {
            lemma_saved_push_merge(self.parents@, self.undo_trail@, self.trail_lim@, self.saved@, child, parent, op);
            lemma_snaps_push(self.table(), self.use_views(), self.terms@, self.undo_trail@, self.trail_lim@, self.snapshots@, op);
        }
        self.undo_trail.push(op);
        self.parents.set(child, parent);
        let grown = self.sizes[parent].saturating_add(self.sizes[child]);
        self.sizes.set(parent, grown);
        proof {
            let rc = self.rank@[child as int];
            let rp = self.rank@[parent as int];
            let nrp: nat = if rp > rc + 1 { rp } else { rc + 1 };
            self.rank@ = self.rank@.update(parent as int, nrp);
            if nrp > self.rank_max@ {
                self.rank_max@ = nrp;
            }
            lemma_roots_below_update(before.parents@, child as int, parent, before.parents@.len());
            let n = self.terms@.len();
            assert(self.links_ok()) by {
                assert forall|t: int| 0 <= t < n implies (#[trigger] self.parents@[t]) < n by {
                    assert(before.parents@[t] < n);
                }
                assert forall|t: int| 0 <= t < n implies #[trigger] self.rank@[t] <= self.rank_max@ by {
                    assert(before.rank@[t] <= before.rank_max@);
                }
                assert forall|t: int| 0 <= t < n && #[trigger] self.parents@[t] != t implies self.rank@[self.parents@[t] as int]
                    > self.rank@[t] by {
                    if t != child {
                        assert(self.parents@[t] == before.parents@[t]);
                        assert(before.rank@[before.parents@[t] as int] > before.rank@[t]);
                    }
                }
            }
            assert(self.core_ok()) by {
                assert forall|k: int| 0 <= k < self.undo_trail@.len() implies match #[trigger] self.undo_trail@[k] {
                    EufUndoOp::Merged { child, parent, .. } => child < n && parent < n,
                    EufUndoOp::AppendedUseList { parent, .. } => parent < n,
                    EufUndoOp::ProofRerooted { changes } => forall|i: int|
                        0 <= i < changes.len() ==> changes@[i].0 < n && self.edge_ok(changes@[i].0 as int, changes@[i].1),
                    EufUndoOp::SigInserted { .. } => true,
                    EufUndoOp::SigRemoved { term, .. } => term < n && self.terms@[term as int] is App,
                } by {
                    if k < before.undo_trail@.len() {
                        assert(self.undo_trail@[k] == before.undo_trail@[k]);
                    }
                }
            }
            assert forall|x: int| 0 <= x < n implies #[trigger] self.root(x) == if before.root(x) == child {
                parent as int
            } else {
                before.root(x)
            } by {
                self.lemma_root_link(before, child as int, parent as int, x);
            }
        }
    }

    /// After linking root `c` under root `p`, the class of `c` has root `p`.
    proof fn lemma_root_link(self, old: EufTheory, c: int, p: int, x: int)
        requires
            old.links_ok(),
            self.links_ok(),
            self.terms@.len() == old.terms@.len(),
            0 <= c < old.num_terms(),
            0 <= p < old.num_terms(),
            c != p,
            old.parents@[c] == c,
            old.parents@[p] == p,
            self.parents@ == old.parents@.update(c, p as usize),
            0 <= x < old.num_terms(),
        ensures
            self.root(x) == if old.root(x) == c {
                p
            } else {
                old.root(x)
            },
        decreases old.height(x),
    {
        if old.parents@[x] != x {
            self.lemma_root_link(old, c, p, old.parents@[x] as int);
        } else if x == c {
            assert(self.root(p) == p);
        }
    }

    /// Whether the proof edge `e` leaving `t` points to a term, and joins two
    /// applications when it has no literal.
    pub closed spec fn edge_ok(self, t: int, e: Option<ProofEdge>) -> bool {
        match e {
            Some(e) => e.target < self.terms@.len() && (e.reason is None ==> self.terms@[t] is App
                && self.terms@[e.target as int] is App),
            None => true,
        }
    }

    /// Whether the indices that `op` holds name terms.
    pub closed spec fn op_ok(self, op: EufUndoOp) -> bool {
        let n = self.terms@.len();
        match op {
            EufUndoOp::Merged { child, parent, .. } => child < n && parent < n,
            EufUndoOp::AppendedUseList { parent, .. } => parent < n,
            EufUndoOp::ProofRerooted { changes } => forall|i: int|
                0 <= i < changes.len() ==> changes@[i].0 < n && self.edge_ok(changes@[i].0 as int, changes@[i].1),
            EufUndoOp::SigInserted { .. } => true,
            EufUndoOp::SigRemoved { term, .. } => term < n && self.terms@[term as int] is App,
        }
    }

    /// The parts that decide the classes and the kinds of terms agree.
    pub closed spec fn same_classes(self, other: EufTheory) -> bool {
        &&& self.parents == other.parents
        &&& self.rank == other.rank
        &&& self.rank_max == other.rank_max
        &&& self.terms == other.terms
    }

    /// The levels and disequalities agree.
    pub closed spec fn same_levels(self, other: EufTheory) -> bool {
        &&& self.trail_lim == other.trail_lim
        &&& self.diseq_lim == other.diseq_lim
        &&& self.disequalities == other.disequalities
        &&& self.saved == other.saved
        &&& self.snapshots == other.snapshots
        &&& self.next_func_id == other.next_func_id
    }

    /// Appends an entry other than a merge to the undo trail.
    fn record(&mut self, op: EufUndoOp)
        requires
            old(self).core_ok(),
            old(self).lims_ok(),
            saved_ok(old(self).parents@, old(self).undo_trail@, old(self).trail_lim@, old(self).saved@),
            snaps_ok(
                undo_table_step(old(self).table(), op),
                undo_uses_step(old(self).use_views(), op),
                old(self).terms@,
                old(self).undo_trail@,
                old(self).trail_lim@,
                old(self).snapshots@,
            ),
            forall|k: int| 0 <= k < old(self).snapshots@.len() ==> #[trigger] old(self).snapshots@[k].parents@ == old(self).saved@[k],
            old(self).op_ok(op),
            op !is Merged,
        ensures
            final(self).base_ok(),
            final(self).undo_trail@ == old(self).undo_trail@.push(op),
            final(self).same_classes(*old(self)),
            final(self).same_levels(*old(self)),
            final(self).sizes == old(self).sizes,
            final(self).sig_table == old(self).sig_table,
            final(self).use_list == old(self).use_list,
            final(self).pending_merges == old(self).pending_merges,
            final(self).proof_tree == old(self).proof_tree,
    {
        let ghost before = *self;
        proof {
            lemma_saved_push_other(self.parents@, self.undo_trail@, self.trail_lim@, self.saved@, op);
            lemma_snaps_push(self.table(), self.use_views(), self.terms@, self.undo_trail@, self.trail_lim@, self.snapshots@, op);
        }
        self.undo_trail.push(op);
        proof {
            let n = self.terms@.len();
            assert forall|k: int| 0 <= k < self.undo_trail@.len() implies match #[trigger] self.undo_trail@[k] {
                EufUndoOp::Merged { child, parent, .. } => child < n && parent < n,
                EufUndoOp::AppendedUseList { parent, .. } => parent < n,
                EufUndoOp::ProofRerooted { changes } => forall|i: int|
                    0 <= i < changes.len() ==> changes@[i].0 < n && self.edge_ok(changes@[i].0 as int, changes@[i].1),
                EufUndoOp::SigInserted { .. } => true,
                EufUndoOp::SigRemoved { term, .. } => term < n && self.terms@[term as int] is App,
            } by {
                if k < before.undo_trail@.len() {
                    assert(self.undo_trail@[k] == before.undo_trail@[k]);
                } else {
                    assert(self.undo_trail@[k] == op);
                }
            }
        }
    }

    /// Queues the congruent applications `a` and `b` for merging.
    fn push_pending(&mut self, a: usize, b: usize)
        requires
            old(self).base_ok(),
            a < old(self).num_terms(),
            b < old(self).num_terms(),
            old(self).is_app(a as int),
            old(self).is_app(b as int),
        ensures
            final(self).base_ok(),
            final(self).pending_merges@ == old(self).pending_merges@.push((a, b)),
            final(self).same_classes(*old(self)),
            final(self).same_levels(*old(self)),
            final(self).sizes == old(self).sizes,
            final(self).sig_table == old(self).sig_table,
            final(self).use_list == old(self).use_list,
            final(self).undo_trail == old(self).undo_trail,
            final(self).proof_tree == old(self).proof_tree,
    {
        let ghost before = *self;
        self.pending_merges.push((a, b));
        proof {
            let n = self.terms@.len();
            assert forall|k: int| 0 <= k < self.pending_merges@.len() implies {
                &&& (#[trigger] self.pending_merges@[k]).0 < n
                &&& self.pending_merges@[k].1 < n
                &&& self.terms@[self.pending_merges@[k].0 as int] is App
                &&& self.terms@[self.pending_merges@[k].1 as int] is App
            } by {
                if k < before.pending_merges@.len() {
                    assert(self.pending_merges@[k] == before.pending_merges@[k]);
                }
            }
        }
    }

    /// Appends `uses` to the use list of `parent`, recording it on the trail.
    fn append_uses(&mut self, parent: usize, uses: &Vec<usize>)
        requires
            old(self).base_ok(),
            parent < old(self).num_terms(),
            forall|i: int| 0 <= i < uses.len() ==> uses@[i] < old(self).num_terms(),
        ensures
            final(self).base_ok(),
            final(self).undo_trail@ == old(self).undo_trail@.push(
                EufUndoOp::AppendedUseList { parent, count: uses.len() },
            ),
            final(self).use_list@[parent as int]@ == old(self).use_list@[parent as int]@ + uses@,
            final(self).use_list@.len() == old(self).use_list@.len(),
            forall|t: int| 0 <= t < old(self).use_list@.len() && t != parent ==> #[trigger] final(self).use_list@[t] == old(self).use_list@[t],
            final(self).same_classes(*old(self)),
            final(self).same_levels(*old(self)),
            final(self).sizes == old(self).sizes,
            final(self).sig_table == old(self).sig_table,
            final(self).pending_merges == old(self).pending_merges,
            final(self).proof_tree == old(self).proof_tree,
    {
        let ghost before = *self;
        let mut l = take_at(&mut self.use_list, parent);
        let mut i: usize = 0;
        while i < uses.len()
            invariant
                i <= uses.len(),
                l@ == before.use_list@[parent as int]@ + uses@.take(i as int),
            decreases uses.len() - i,
        {
            l.push(uses[i]);
            proof {
                assert(uses@.take(i + 1) =~= uses@.take(i as int).push(uses@[i as int]));
                assert(l@ =~= before.use_list@[parent as int]@ + uses@.take(i + 1));
            }
            i += 1;
        }
        proof {
            assert(uses@.take(uses.len() as int) =~= uses@);
        }
        put_at(&mut self.use_list, parent, l);
        proof {
            let n = self.terms@.len();
            assert forall|t: int, i: int| 0 <= t < n && 0 <= i < self.use_list@[t].len() implies #[trigger] self.use_list@[t]@[i]
                < n by {
                if t != parent {
                    assert(self.use_list@[t] == before.use_list@[t]);
                } else if i < before.use_list@[t].len() {
                    assert(self.use_list@[t]@[i] == before.use_list@[t]@[i]);
                } else {
                    assert(self.use_list@[t]@[i] == uses@[i - before.use_list@[t].len()]);
                }
            }
        }
        proof {
            let op = EufUndoOp::AppendedUseList { parent, count: uses.len() };
            assert(undo_uses_step(self.use_views(), op) =~= before.use_views()) by {
                let l = self.use_list@[parent as int]@;
                assert(l.take((l.len() - uses.len()) as int) =~= before.use_list@[parent as int]@);
            }
        }
        self.record(EufUndoOp::AppendedUseList { parent, count: uses.len() });
    }

    /// Turns the proof tree of `node` around so that `node` becomes its root,
    /// returning each visited node with its former edge, in visiting order.
    fn reroot(&mut self, node: usize) -> (changes: Vec<(usize, Option<ProofEdge>)>)
        requires
            old(self).base_ok(),
            node < old(self).num_terms(),
        ensures
            final(self).base_ok(),
            changes.len() > 0,
            changes@[0] == (node, old(self).proof_tree@[node as int]),
            forall|i: int|
                0 <= i < changes.len() ==> (#[trigger] changes@[i]).0 < old(self).num_terms() && old(self).edge_ok(changes@[i].0 as int, changes@[i].1),
            final(self).same_classes(*old(self)),
            final(self).same_levels(*old(self)),
            final(self).sizes == old(self).sizes,
            final(self).sig_table == old(self).sig_table,
            final(self).use_list == old(self).use_list,
            final(self).pending_merges == old(self).pending_merges,
            final(self).undo_trail == old(self).undo_trail,
    {
        let ghost before = *self;
        let ghost n = self.terms@.len();
        let mut changes: Vec<(usize, Option<ProofEdge>)> = Vec::new();
        let mut curr = node;
        let mut incoming: Option<ProofEdge> = None;
        let mut fuel = self.terms.len();
        loop
            invariant
                self.base_ok(),
                n == self.terms@.len(),
                curr < n,
                self.edge_ok(curr as int, incoming),
                changes.len() == 0 ==> curr == node && self.proof_tree == before.proof_tree,
                changes.len() > 0 ==> changes@[0] == (node, before.proof_tree@[node as int]),
                forall|i: int|
                    0 <= i < changes.len() ==> (#[trigger] changes@[i]).0 < n && self.edge_ok(changes@[i].0 as int, changes@[i].1),
                self.same_classes(before),
                self.same_levels(before),
                self.sizes == before.sizes,
                self.sig_table == before.sig_table,
                self.use_list == before.use_list,
                self.pending_merges == before.pending_merges,
                self.undo_trail == before.undo_trail,
            ensures
                self.base_ok(),
                changes.len() > 0,
                changes@[0] == (node, before.proof_tree@[node as int]),
                forall|i: int|
                    0 <= i < changes.len() ==> (#[trigger] changes@[i]).0 < n && self.edge_ok(changes@[i].0 as int, changes@[i].1),
                self.same_classes(before),
                self.same_levels(before),
                self.sizes == before.sizes,
                self.sig_table == before.sig_table,
                self.use_list == before.use_list,
                self.pending_merges == before.pending_merges,
                self.undo_trail == before.undo_trail,
            decreases fuel,
        {
            let old_edge = self.proof_tree[curr];
            let ghost pc = changes@;
            changes.push((curr, old_edge));
            proof {
                assert forall|i: int| 0 <= i < changes.len() implies (#[trigger] changes@[i]).0 < n && self.edge_ok(changes@[i].0 as int, changes@[i].1) by {
                    if i < pc.len() {
                        assert(changes@[i] == pc[i]);
                    }
                }
                if pc.len() > 0 {
                    assert(changes@[0] == pc[0]);
                }
            }
            let ghost pt = self.proof_tree@;
            self.proof_tree.set(curr, incoming);
            proof {
                assert forall|t: int| 0 <= t < n implies self.edge_ok(t, #[trigger] self.proof_tree@[t]) by {
                    if t != curr {
                        assert(self.proof_tree@[t] == pt[t]);
                    }
                }
            }
            match old_edge {
                Some(edge) => {
                    if fuel == 0 {
                        break;
                    }
                    fuel -= 1;
                    incoming = Some(ProofEdge { target: curr, reason: edge.reason });
                    curr = edge.target;
                },
                None => {
                    break;
                },
            }
        }
        changes
    }

    /// The parents recorded when each open level was opened.
    pub closed spec fn saved_levels(self) -> Seq<Seq<usize>> {
        self.saved@
    }

    /// Asserts `t1 = t2`, justified by `reason` (`None` for a congruence
    /// between two applications). Returns whether two classes were joined;
    /// the applications that became congruent are queued for merging.
    pub fn merge(&mut self, t1: usize, t2: usize, reason: Option<Lit>) -> (r: bool)
        requires
            old(self).wf(),
            t1 < old(self).num_terms(),
            t2 < old(self).num_terms(),
            reason is Some || (old(self).is_app(t1 as int) && old(self).is_app(t2 as int)),
        ensures
            final(self).wf(),
            r == (old(self).root(t1 as int) != old(self).root(t2 as int)),
            !r ==> *final(self) == *old(self),
            r ==> final(self).classes() + 1 == old(self).classes(),
            final(self).num_terms() == old(self).num_terms(),
            final(self).levels() == old(self).levels(),
            final(self).func_ids() == old(self).func_ids(),
            final(self).diseqs() == old(self).diseqs(),
            final(self).saved_levels() == old(self).saved_levels(),
            final(self).diseq_marks() == old(self).diseq_marks(),
            final(self).pending().len() >= old(self).pending().len(),
            final(self).pending().subrange(0, old(self).pending().len() as int) == old(self).pending(),
            forall|x: int| 0 <= x < final(self).num_terms() ==> #[trigger] final(self).is_app(x) == old(self).is_app(x),
            forall|x: int| 0 <= x < final(self).num_terms() ==> #[trigger] final(self).symbol(x) == old(self).symbol(x),
            forall|x: int| 0 <= x < final(self).num_terms() ==> #[trigger] final(self).args(x) == old(self).args(x),
            final(self).root(t1 as int) == old(self).root(t1 as int) || final(self).root(t1 as int) == old(self).root(
                t2 as int,
            ),
            forall|x: int|
                0 <= x < old(self).num_terms() ==> #[trigger] final(self).root(x) == if old(self).root(x) == old(self).root(
                    t1 as int,
                ) || old(self).root(x) == old(self).root(t2 as int) {
                    final(self).root(t1 as int)
                } else {
                    old(self).root(x)
                },
    {
        let root1 = self.find(t1);
        let root2 = self.find(t2);
        if root1 == root2 {
            return false;
        }
        let ghost before = *self;
        let ghost n = self.terms@.len();
        proof {
            before.lemma_root_is_root(t1 as int);
            before.lemma_root_is_root(t2 as int);
        }
        let (parent, child) = if self.sizes[root1] >= self.sizes[root2] {
            (root1, root2)
        } else {
            (root2, root1)
        };
        let child_uses = copy_usizes(&self.use_list[child]);
        proof {
            assert forall|i: int| 0 <= i < child_uses.len() implies child_uses@[i] < n by {
                assert(child_uses@[i] == self.use_list@[child as int]@[i]);
            }
            assert(before.uses_exact());
            assert forall|k: int| 0 <= k < child_uses.len() implies before.is_app(#[trigger] child_uses@[k] as int) by {
                assert(before.use_list@[child as int]@[k] == child_uses@[k]);
                assert(before.uses_in(child_uses@[k] as int, child as int));
            }
        }
        let mut i: usize = 0;
        while i < child_uses.len()
            invariant
                self.base_ok(),
                before.wf(),
                n == self.terms@.len(),
                forall|k: int| 0 <= k < child_uses.len() ==> child_uses@[k] < n,
                i <= child_uses.len(),
                self.same_classes(before),
                self.same_levels(before),
                self.sizes == before.sizes,
                self.use_list == before.use_list,
                self.pending_merges == before.pending_merges,
                self.proof_tree == before.proof_tree,
                forall|key: (usize, Seq<usize>)|
                    #[trigger] before.table().contains_key(key) && (forall|k: int|
                        0 <= k < child_uses.len() ==> key != before.sig_key(#[trigger] child_uses@[k] as int))
                        ==> self.table().contains_key(key) && self.table()[key] == before.table()[key],
                forall|key: (usize, Seq<usize>)|
                    #[trigger] self.table().contains_key(key) ==> before.table().contains_key(key) && self.table()[key]
                        == before.table()[key],
                forall|key: (usize, Seq<usize>), k: int|
                    #[trigger] self.table().contains_key(key) && 0 <= k < i ==> self.table()[key] != #[trigger] child_uses@[k],
            decreases child_uses.len() - i,
        {
            let ghost pre1 = *self;
            let u = child_uses[i];
            let ghost at_sig = *self;
            if let Some(old_sig) = self.signature(u) {
                proof {
                    at_sig.lemma_sig_key_frame(before, u as int);
                }
                if let Some(e) = self.table_get(&old_sig) {
                    if e == u {
                        let ghost t0 = self.table();
                        self.table_remove(&old_sig);
                        proof {
                            let op = EufUndoOp::SigRemoved { sig: old_sig, term: u };
                            assert(undo_table_step(self.table(), op) =~= t0);
                        }
                        let ghost pre_rec = *self;
                        self.record(EufUndoOp::SigRemoved { sig: old_sig, term: u });
                        proof {
                            at_sig.lemma_sig_key_frame(before, u as int);
                            assert(key_of(old_sig) == before.sig_key(child_uses@[i as int] as int));
                        }
                    }
                }
            }
            proof {
                let u0 = child_uses@[i as int];
                assert forall|key: (usize, Seq<usize>)| #[trigger] self.table().contains_key(key) implies before.table().contains_key(
                    key,
                ) && self.table()[key] == before.table()[key] by {
                    assert(pre1.table().contains_key(key));
                }
                assert forall|key: (usize, Seq<usize>), k: int|
                    #[trigger] self.table().contains_key(key) && 0 <= k < i + 1 implies self.table()[key] != #[trigger] child_uses@[k] by {
                    assert(pre1.table().contains_key(key));
                    if k == i && self.table()[key] == u0 {
                        lemma_table_value(before, key);
                        assert(before.sig_key(u0 as int) == key);
                        assert(pre1.table()[key] == u0);
                    }
                }
            }
            i += 1;
        }
        proof {
            self.lemma_root_frame(before, child as int);
            self.lemma_root_frame(before, parent as int);
            before.lemma_root_is_root(child as int);
        }
        let ghost pre_link = *self;
        self.link(child, parent);
        let ghost linked = *self;
        let changes = self.reroot(t1);
        self.record(EufUndoOp::ProofRerooted { changes });
        let ghost pre_edge = *self;
        self.proof_tree.set(t1, Some(ProofEdge { target: t2, reason }));
        proof {
            assert forall|t: int| 0 <= t < n implies self.edge_ok(t, #[trigger] self.proof_tree@[t]) by {
                if t != t1 {
                    assert(self.proof_tree@[t] == pre_edge.proof_tree@[t]);
                }
            }
        }
        let mut j: usize = 0;
        while j < child_uses.len()
            invariant
                self.base_ok(),
                n == self.terms@.len(),
                forall|k: int| 0 <= k < child_uses.len() ==> child_uses@[k] < n,
                j <= child_uses.len(),
                parent < n,
                self.same_classes(linked),
                self.same_levels(linked),
                self.use_list == linked.use_list,
                linked.core_ok(),
                before.wf(),
                linked.terms == before.terms,
                forall|k: int| 0 <= k < child_uses.len() ==> before.is_app(#[trigger] child_uses@[k] as int),
                forall|key: (usize, Seq<usize>)|
                    #[trigger] linked.table().contains_key(key) ==> self.table().contains_key(key) && self.table()[key]
                        == linked.table()[key],
                forall|q: (usize, usize)| linked.pending_merges@.contains(q) ==> #[trigger] self.pending_merges@.contains(q),
                self.pending_merges@.len() >= linked.pending_merges@.len(),
                self.pending_merges@.subrange(0, linked.pending_merges@.len() as int) == linked.pending_merges@,
                forall|key: (usize, Seq<usize>)|
                    #[trigger] self.table().contains_key(key) ==> (linked.table().contains_key(key) && self.table()[key]
                        == linked.table()[key]) || (child_uses@.take(j as int).contains(self.table()[key]) && key == linked.sig_key(
                        self.table()[key] as int,
                    )),
                forall|q: int|
                    linked.pending_merges@.len() <= q < self.pending_merges@.len() ==> {
                        &&& child_uses@.take(j as int).contains((#[trigger] self.pending_merges@[q]).0)
                        &&& self.table().contains_key(linked.sig_key(self.pending_merges@[q].0 as int))
                        &&& self.pending_merges@[q].1 == self.table()[linked.sig_key(self.pending_merges@[q].0 as int)]
                    },
                forall|k: int|
                    0 <= k < j ==> {
                        &&& self.table().contains_key(linked.sig_key(#[trigger] child_uses@[k] as int))
                        &&& self.settled(child_uses@[k] as int, self.table()[linked.sig_key(child_uses@[k] as int)] as int)
                    },
            decreases child_uses.len() - j,
        {
            let u = child_uses[j];
            let ghost pre = *self;
            proof {
                assert(self.is_app(u as int)) by {
                    assert(before.is_app(child_uses@[j as int] as int));
                    assert(self.terms@ == before.terms@);
                }
            }
            if let Some(new_sig) = self.signature(u) {
                proof {
                    self.lemma_sig_key_frame(linked, u as int);
                }
                match self.table_get(&new_sig) {
                    Some(e) => {
                        if e != u {
                            self.push_pending(u, e);
                            proof {
                                assert(self.pending_merges@[self.pending_merges@.len() - 1] == (u, e));
                                assert(self.pending_merges@.contains((u, e)));
                                assert forall|q: (usize, usize)| pre.pending_merges@.contains(q) implies #[trigger] self.pending_merges@.contains(q) by {
                                    let x = choose|x: int| 0 <= x < pre.pending_merges@.len() && pre.pending_merges@[x] == q;
                                    assert(self.pending_merges@[x] == q);
                                }
                            }
                        }
                    },
                    None => {
                        let kept = new_sig.dup();
                        let ghost t0 = self.table();
                        self.table_insert(kept, u);
                        proof {
                            let op = EufUndoOp::SigInserted { sig: new_sig };
                            assert(key_of(kept) == key_of(new_sig));
                            assert(undo_table_step(self.table(), op) =~= t0);
                        }
                        self.record(EufUndoOp::SigInserted { sig: new_sig });
                    },
                }
            }
            proof {
                let tj = child_uses@.take(j as int);
                let tj1 = child_uses@.take(j + 1);
                assert(tj1 =~= tj.push(u));
                assert forall|x: usize| tj.contains(x) implies #[trigger] tj1.contains(x) by {
                    let k = choose|k: int| 0 <= k < tj.len() && tj[k] == x;
                    assert(tj1[k] == x);
                }
                assert(tj1[j as int] == u);
                assert(tj1.contains(u));
                assert forall|key: (usize, Seq<usize>)| #[trigger] self.table().contains_key(key) implies (linked.table().contains_key(key)
                    && self.table()[key] == linked.table()[key]) || (tj1.contains(self.table()[key]) && key == linked.sig_key(
                    self.table()[key] as int,
                )) by {
                    if pre.table().contains_key(key) && self.table()[key] == pre.table()[key] {
                        if !(linked.table().contains_key(key) && pre.table()[key] == linked.table()[key]) {
                            assert(tj.contains(pre.table()[key]));
                        }
                    }
                }
                assert forall|q: int| linked.pending_merges@.len() <= q < self.pending_merges@.len() implies {
                    &&& tj1.contains((#[trigger] self.pending_merges@[q]).0)
                    &&& self.table().contains_key(linked.sig_key(self.pending_merges@[q].0 as int))
                    &&& self.pending_merges@[q].1 == self.table()[linked.sig_key(self.pending_merges@[q].0 as int)]
                } by {
                    if q < pre.pending_merges@.len() {
                        assert(self.pending_merges@[q] == pre.pending_merges@[q]) by {
                            assert(self.pending_merges@.subrange(0, pre.pending_merges@.len() as int)[q] == pre.pending_merges@[q]);
                        }
                        assert(tj.contains(pre.pending_merges@[q].0));
                        let key = linked.sig_key(pre.pending_merges@[q].0 as int);
                        assert(pre.table().contains_key(key));
                    }
                }
                assert forall|q: (usize, usize)| pre.pending_merges@.contains(q) implies #[trigger] self.pending_merges@.contains(q) by {}
                assert(self.pending_merges@.subrange(0, linked.pending_merges@.len() as int) =~= linked.pending_merges@) by {
                    assert(self.pending_merges@.subrange(0, pre.pending_merges@.len() as int) =~= pre.pending_merges@);
                    assert forall|q: int| 0 <= q < linked.pending_merges@.len() implies self.pending_merges@[q] == linked.pending_merges@[q] by {
                        assert(pre.pending_merges@.subrange(0, linked.pending_merges@.len() as int)[q] == linked.pending_merges@[q]);
                        assert(self.pending_merges@.subrange(0, pre.pending_merges@.len() as int)[q] == pre.pending_merges@[q]);
                    }
                }
                assert forall|k: int| 0 <= k < j + 1 implies {
                    &&& self.table().contains_key(linked.sig_key(#[trigger] child_uses@[k] as int))
                    &&& self.settled(child_uses@[k] as int, self.table()[linked.sig_key(child_uses@[k] as int)] as int)
                } by {
                    let x = child_uses@[k] as int;
                    let key = linked.sig_key(x);
                    let w = self.table()[key];
                    lemma_table_value(*self, key);
                    if k < j {
                        assert(pre.table().contains_key(key));
                        assert(self.table()[key] == pre.table()[key]);
                        self.lemma_settled_frame(pre, x, w as int);
                    } else {
                        self.lemma_root_frame(pre, x);
                    }
                }
            }
            j += 1;
        }
        let ghost post2 = *self;
        self.append_uses(parent, &child_uses);
        proof {
            assert forall|x: int| 0 <= x < n implies #[trigger] self.root(x) == linked.root(x) by {
                self.lemma_root_frame(linked, x);
            }
            assert forall|x: int| 0 <= x < n implies #[trigger] pre_link.root(x) == before.root(x) by {
                pre_link.lemma_root_frame(before, x);
            }
            assert forall|x: int| 0 <= x < n implies #[trigger] self.is_app(x) == before.is_app(x) by {}
            assert forall|k: int| 0 <= k < child_uses@.len() implies {
                &&& self.table().contains_key(self.sig_key(#[trigger] child_uses@[k] as int))
                &&& self.settled(child_uses@[k] as int, self.table()[self.sig_key(child_uses@[k] as int)] as int)
            } by {
                let x = child_uses@[k] as int;
                self.lemma_sig_key_frame(linked, x);
                post2.lemma_sig_key_frame(linked, x);
                let key = self.sig_key(x);
                assert(post2.table().contains_key(key));
                let w = post2.table()[key];
                lemma_table_value(post2, key);
                self.lemma_settled_frame(post2, x, w as int);
            }
            assert forall|q: (usize, usize)| before.pending_merges@.contains(q) implies #[trigger] self.pending_merges@.contains(q) by {
                assert(linked.pending_merges@.contains(q));
            }
            assert forall|key: (usize, Seq<usize>)|
                #[trigger] before.table().contains_key(key) && (forall|k: int|
                    0 <= k < child_uses@.len() ==> key != before.sig_key(#[trigger] child_uses@[k] as int)) implies self.table().contains_key(key)
                    && self.table()[key] == before.table()[key] by {
                assert(pre_link.table().contains_key(key));
                assert(linked.table().contains_key(key));
            }
            self.lemma_closure_merged(before, child as int, parent as int, child_uses@);
            assert(self.pending_merges@.subrange(0, before.pending_merges@.len() as int) =~= before.pending_merges@);
            assert(child_uses@.take(child_uses@.len() as int) =~= child_uses@);
            assert(linked.table() == pre_link.table());
            assert(self.table() == post2.table());
            assert forall|key: (usize, Seq<usize>)| #[trigger] self.table().contains_key(key) implies (before.table().contains_key(key)
                && self.table()[key] == before.table()[key] && !child_uses@.contains(self.table()[key])) || (child_uses@.contains(
                self.table()[key],
            ) && key == self.sig_key(self.table()[key] as int)) by {
                let w = self.table()[key];
                assert(post2.table().contains_key(key));
                if linked.table().contains_key(key) && w == linked.table()[key] {
                    assert(pre_link.table().contains_key(key));
                    if child_uses@.contains(w) {
                        let k = choose|k: int| 0 <= k < child_uses@.len() && child_uses@[k] == w;
                        assert(pre_link.table()[key] != child_uses@[k]);
                    }
                } else {
                    lemma_table_value(*self, key);
                    self.lemma_sig_key_frame(linked, w as int);
                }
            }
            assert forall|k: int| 0 <= k < before.pending_merges@.len() implies #[trigger] self.pending_merges@[k]
                == before.pending_merges@[k] by {
                assert(self.pending_merges@.subrange(0, before.pending_merges@.len() as int)[k] == before.pending_merges@[k]);
            }
            assert forall|k: int| before.pending_merges@.len() <= k < self.pending_merges@.len() implies {
                &&& child_uses@.contains((#[trigger] self.pending_merges@[k]).0)
                &&& self.table().contains_key(self.sig_key(self.pending_merges@[k].0 as int))
                &&& self.pending_merges@[k].1 == self.table()[self.sig_key(self.pending_merges@[k].0 as int)]
            } by {
                let u = self.pending_merges@[k].0;
                assert(post2.pending_merges@[k] == self.pending_merges@[k]);
                assert(u < n);
                self.lemma_sig_key_frame(linked, u as int);
            }
            self.lemma_sound_merged(before, child as int, parent as int, child_uses@);
        }
        true
    }

    /// The merges waiting to be made.
    pub closed spec fn pending(self) -> Seq<(usize, usize)> {
        self.pending_merges@
    }

    /// Makes the queued merges, and those they bring about, until none is
    /// left.
    pub fn propagate_congruences(&mut self)
        requires
            old(self).wf(),
        ensures
            final(self).wf(),
            final(self).pending().len() == 0,
            forall|u: int, v: int|
                0 <= u < final(self).num_terms() && 0 <= v < final(self).num_terms() && #[trigger] final(self).congruent(u, v)
                    ==> final(self).root(u) == final(self).root(v),
            final(self).num_terms() == old(self).num_terms(),
            final(self).levels() == old(self).levels(),
            final(self).func_ids() == old(self).func_ids(),
            final(self).diseqs() == old(self).diseqs(),
            final(self).saved_levels() == old(self).saved_levels(),
            final(self).diseq_marks() == old(self).diseq_marks(),
            forall|x: int| 0 <= x < final(self).num_terms() ==> #[trigger] final(self).is_app(x) == old(self).is_app(x),
            forall|x: int| 0 <= x < final(self).num_terms() ==> #[trigger] final(self).symbol(x) == old(self).symbol(x),
            forall|x: int| 0 <= x < final(self).num_terms() ==> #[trigger] final(self).args(x) == old(self).args(x),
            forall|x: int, y: int|
                0 <= x < old(self).num_terms() && 0 <= y < old(self).num_terms() && old(self).root(x) == old(self).root(y)
                    ==> #[trigger] final(self).root(x) == #[trigger] final(self).root(y),
            forall|f: spec_fn(int) -> int|
                old(self).classes_within(f) && old(self).congruence_closed_by(f) ==> #[trigger] final(self).classes_within(f),
    {
        let ghost start = *self;
        while self.pending_merges.len() > 0
            invariant
                self.wf(),
                start.wf(),
                self.num_terms() == start.num_terms(),
                self.levels() == start.levels(),
                self.func_ids() == start.func_ids(),
                self.diseqs() == start.diseqs(),
                self.saved_levels() == start.saved_levels(),
                self.diseq_marks() == start.diseq_marks(),
                forall|x: int| 0 <= x < self.num_terms() ==> #[trigger] self.is_app(x) == start.is_app(x),
                forall|x: int, y: int|
                    0 <= x < start.num_terms() && 0 <= y < start.num_terms() && start.root(x) == start.root(y)
                        ==> #[trigger] self.root(x) == #[trigger] self.root(y),
                forall|x: int| 0 <= x < self.num_terms() ==> #[trigger] self.symbol(x) == start.symbol(x),
                forall|x: int| 0 <= x < self.num_terms() ==> #[trigger] self.args(x) == start.args(x),
                forall|f: spec_fn(int) -> int|
                    start.classes_within(f) && start.congruence_closed_by(f) ==> #[trigger] self.classes_within(f),
            decreases self.classes(), self.pending_merges@.len(),
        {
            let ghost pre = *self;
            let last = self.pending_merges.len() - 1;
            let (t1, t2) = self.pending_merges[last];
            proof {
                assert(self.terms@[t1 as int] is App && self.terms@[t2 as int] is App);
            }
            let joined = self.merge(t1, t2, None);
            let ghost merged = *self;
            let _ = self.pending_merges.remove(last);
            proof {
                let n = self.terms@.len();
                let pm = merged.pending_merges@;
                assert(pm.subrange(0, pre.pending_merges@.len() as int)[last as int] == pre.pending_merges@[last as int]);
                assert(pm[last as int] == (t1, t2));
                assert forall|q: int| 0 <= q < self.pending_merges@.len() implies #[trigger] self.pending_merges@[q] == (if q
                    < last {
                    pm[q]
                } else {
                    pm[q + 1]
                }) by {}
                assert forall|k: int| 0 <= k < self.pending_merges@.len() implies {
                    &&& (#[trigger] self.pending_merges@[k]).0 < n
                    &&& self.pending_merges@[k].1 < n
                    &&& self.terms@[self.pending_merges@[k].0 as int] is App
                    &&& self.terms@[self.pending_merges@[k].1 as int] is App
                } by {
                    if k < last {
                        assert(self.pending_merges@[k] == pm[k]);
                    } else {
                        assert(self.pending_merges@[k] == pm[k + 1]);
                    }
                }
                assert(merged.root(t1 as int) == merged.root(t2 as int));
                assert forall|x: int| 0 <= x < n implies #[trigger] self.root(x) == merged.root(x) by {
                    self.lemma_root_frame(merged, x);
                }
                assert forall|u: int, w: int|
                    0 <= u < self.terms@.len() && 0 <= w < self.terms@.len() && #[trigger] merged.settled(u, w) implies self.settled(u, w) by {
                    if merged.root(u) != merged.root(w) {
                        let q = choose|q: int| 0 <= q < pm.len() && pm[q] == (u as usize, w as usize);
                        if q < last {
                            assert(self.pending_merges@[q] == pm[q]);
                        } else if q > last {
                            assert(self.pending_merges@[q - 1] == pm[q]);
                        } else {
                            assert((u as usize, w as usize) == (t1, t2));
                        }
                    }
                }
                self.lemma_closure_settled(merged);
                assert forall|q: (usize, usize)| #[trigger] self.pending_merges@.contains(q) implies merged.pending_merges@.contains(q) by {
                    let j = choose|j: int| 0 <= j < self.pending_merges@.len() && self.pending_merges@[j] == q;
                    if j < last {
                        assert(pm[j] == q);
                    } else {
                        assert(pm[j + 1] == q);
                    }
                }
                self.lemma_sound_frame(merged);
                if !joined {
                    assert(self.pending_merges@.len() < pre.pending_merges@.len());
                }
            }
            proof {
                assert forall|x: int, y: int|
                    0 <= x < start.num_terms() && 0 <= y < start.num_terms() && start.root(x) == start.root(y)
                        implies #[trigger] self.root(x) == #[trigger] self.root(y) by {
                    assert(pre.root(x) == pre.root(y));
                    assert(merged.root(x) == merged.root(y));
                }
                assert forall|x: int| 0 <= x < self.num_terms() implies #[trigger] self.is_app(x) == start.is_app(x) by {
                    assert(merged.is_app(x) == pre.is_app(x));
                    assert(self.terms == merged.terms);
                }
                assert forall|x: int| 0 <= x < self.num_terms() implies #[trigger] self.symbol(x) == start.symbol(x) by {
                    assert(merged.symbol(x) == pre.symbol(x));
                    assert(self.terms == merged.terms);
                }
                assert forall|x: int| 0 <= x < self.num_terms() implies #[trigger] self.args(x) == start.args(x) by {
                    assert(merged.args(x) == pre.args(x));
                    assert(self.terms == merged.terms);
                }
                assert forall|f: spec_fn(int) -> int|
                    start.classes_within(f) && start.congruence_closed_by(f) implies #[trigger] self.classes_within(f) by {
                    assert(pre.classes_within(f));
                    let n = pre.num_terms();
                    assert(pre.sig_key(t1 as int) == pre.sig_key(t2 as int)) by {
                        assert(pre.pending_merges@[last as int] == (t1, t2));
                    }
                    pre.lemma_congruent_args(t1 as int, t2 as int);
                    let a1 = pre.args(t1 as int);
                    let a2 = pre.args(t2 as int);
                    assert forall|i: int| 0 <= i < a1.len() implies f(a1[i] as int) == f(a2[i] as int) by {
                        assert(pre.root(a1[i] as int) == pre.root(a2[i] as int));
                        assert(pre.terms@[t1 as int] is App);
                        assert(pre.terms@[t2 as int] is App);
                        assert(a1[i] < n && a2[i] < n);
                    }
                    assert(start.is_app(t1 as int) && start.is_app(t2 as int));
                    assert(start.symbol(t1 as int) == start.symbol(t2 as int));
                    assert(start.args(t1 as int) == a1 && start.args(t2 as int) == a2);
                    assert(f(t1 as int) == f(t2 as int));
                    assert forall|x: int, y: int|
                        0 <= x < self.num_terms() && 0 <= y < self.num_terms() && #[trigger] self.root(x) == #[trigger] self.root(y)
                            implies f(x) == f(y) by {
                        assert(self.root(x) == merged.root(x));
                        assert(self.root(y) == merged.root(y));
                        let r1 = pre.root(t1 as int);
                        let r2 = pre.root(t2 as int);
                        let inx = pre.root(x) == r1 || pre.root(x) == r2;
                        let iny = pre.root(y) == r1 || pre.root(y) == r2;
                        if inx {
                            if pre.root(x) == r1 {
                                assert(f(x) == f(t1 as int));
                            } else {
                                assert(f(x) == f(t2 as int));
                            }
                        }
                        if iny {
                            if pre.root(y) == r1 {
                                assert(f(y) == f(t1 as int));
                            } else {
                                assert(f(y) == f(t2 as int));
                            }
                        }
                        if !inx && !iny {
                            assert(pre.root(x) == pre.root(y));
                        } else if inx && !iny {
                            pre.lemma_root_is_root(t1 as int);
                            pre.lemma_root_is_root(y);
                            assert(merged.root(y) == pre.root(y));
                            assert(merged.root(x) == merged.root(t1 as int));
                            assert(merged.root(t1 as int) == r1 || merged.root(t1 as int) == r2);
                        } else if !inx && iny {
                            pre.lemma_root_is_root(t1 as int);
                            assert(merged.root(x) == pre.root(x));
                            assert(merged.root(y) == merged.root(t1 as int));
                            assert(merged.root(t1 as int) == r1 || merged.root(t1 as int) == r2);
                        }
                    }
                }
            }
        }
        proof {
            self.lemma_congruence_closed();
        }
    }
    /// `f` puts the terms of each class together.
    pub open spec fn classes_within(self, f: spec_fn(int) -> int) -> bool {
        forall|x: int, y: int|
            0 <= x < self.num_terms() && 0 <= y < self.num_terms() && #[trigger] self.root(x) == #[trigger] self.root(y)
                ==> f(x) == f(y)
    }

    /// `f` is closed under congruence: it puts together any two
    /// applications of one symbol to arguments that it puts together
    /// pairwise.
    pub open spec fn congruence_closed_by(self, f: spec_fn(int) -> int) -> bool {
        forall|u: int, v: int|
            0 <= u < self.num_terms() && 0 <= v < self.num_terms() && #[trigger] self.is_app(u) && #[trigger] self.is_app(v)
                && self.symbol(u) == self.symbol(v) && self.args(u).len() == self.args(v).len() && (forall|i: int|
                0 <= i < self.args(u).len() ==> f(self.args(u)[i] as int) == f(self.args(v)[i] as int)) ==> f(u) == f(v)
    }

    /// The number of disequalities recorded when each open level was opened.
    pub closed spec fn diseq_marks(self) -> Seq<usize> {
        self.diseq_lim@
    }

    /// Opens a decision level, after making all queued merges.
    pub fn push(&mut self)
        requires
            old(self).wf(),
        ensures
            final(self).wf(),
            final(self).pending().len() == 0,
            final(self).levels() == old(self).levels() + 1,
            final(self).num_terms() == old(self).num_terms(),
            final(self).func_ids() == old(self).func_ids(),
            final(self).diseqs() == old(self).diseqs(),
            final(self).saved_levels() == old(self).saved_levels().push(final(self).parent_links()),
            final(self).diseq_marks() == old(self).diseq_marks().push(old(self).diseqs().len() as usize),
            forall|x: int| 0 <= x < final(self).num_terms() ==> #[trigger] final(self).is_app(x) == old(self).is_app(x),
            forall|x: int| 0 <= x < final(self).num_terms() ==> #[trigger] final(self).symbol(x) == old(self).symbol(x),
            forall|x: int| 0 <= x < final(self).num_terms() ==> #[trigger] final(self).args(x) == old(self).args(x),
            forall|x: int, y: int|
                0 <= x < old(self).num_terms() && 0 <= y < old(self).num_terms() && old(self).root(x) == old(self).root(y)
                    ==> #[trigger] final(self).root(x) == #[trigger] final(self).root(y),
    {
        self.propagate_congruences();
        let ghost mid = *self;
        self.trail_lim.push(self.undo_trail.len());
        self.diseq_lim.push(self.disequalities.len());
        proof {
            self.saved@ = self.saved@.push(self.parents@);
            self.snapshots@ = self.snapshots@.push(mid);
            let t = self.undo_trail@;
            assert forall|k: int| 0 <= k < self.snapshots@.len() implies {
                let suffix = t.subrange(self.trail_lim@[k] as int, t.len() as int);
                &&& (#[trigger] self.snapshots@[k]).table() == undo_table(self.table(), suffix)
                &&& self.snapshots@[k].use_views() == undo_uses(self.use_views(), suffix)
                &&& self.snapshots@[k].terms@ == self.terms@
                &&& self.snapshots@[k].core_ok()
                &&& self.snapshots@[k].closure_ok()
                &&& self.snapshots@[k].sound_ok()
                &&& self.snapshots@[k].pending_merges@.len() == 0
            } by {
                assert(t.subrange(t.len() as int, t.len() as int) =~= Seq::<EufUndoOp>::empty());
                if k < mid.snapshots@.len() {
                    assert(self.snapshots@[k] == mid.snapshots@[k]);
                    assert(self.trail_lim@[k] == mid.trail_lim@[k]);
                }
            }
            assert(t.subrange(t.len() as int, t.len() as int) =~= Seq::<EufUndoOp>::empty());
            assert forall|k: int| 0 <= k < self.saved@.len() implies #[trigger] self.saved@[k] == undo_parents(
                self.parents@,
                t.subrange(self.trail_lim@[k] as int, t.len() as int),
            ) by {
                if k < mid.saved@.len() {
                    assert(self.saved@[k] == mid.saved@[k]);
                    assert(self.trail_lim@[k] == mid.trail_lim@[k]);
                }
            }
            assert forall|k: int| 0 <= k < self.trail_lim@.len() implies #[trigger] self.trail_lim@[k] <= t.len() by {
                if k < mid.trail_lim@.len() {
                    assert(self.trail_lim@[k] == mid.trail_lim@[k]);
                }
            }
            assert forall|k: int| 0 <= k < self.diseq_lim@.len() implies #[trigger] self.diseq_lim@[k]
                <= self.disequalities@.len() by {
                if k < mid.diseq_lim@.len() {
                    assert(self.diseq_lim@[k] == mid.diseq_lim@[k]);
                }
            }
            assert forall|x: int| 0 <= x < self.num_terms() implies #[trigger] self.root(x) == mid.root(x) by {
                self.lemma_root_frame(mid, x);
            }
            assert forall|x: int| 0 <= x < self.num_terms() implies #[trigger] self.is_app(x) == mid.is_app(x) by {}
            assert forall|x: int| 0 <= x < self.num_terms() implies #[trigger] self.symbol(x) == mid.symbol(x) by {}
            assert forall|x: int| 0 <= x < self.num_terms() implies #[trigger] self.args(x) == mid.args(x) by {}
            assert forall|k: int| 0 <= k < self.snapshots@.len() implies #[trigger] self.snapshots@[k].parents@ == self.saved@[k] by {
                if k < mid.snapshots@.len() {
                    assert(self.snapshots@[k] == mid.snapshots@[k]);
                    assert(self.saved@[k] == mid.saved@[k]);
                }
            }
            self.lemma_closure_frame(mid);
            self.lemma_sound_frame(mid);
        }
    }

    /// Undoes the last entry of the undo trail.
    #[verifier::rlimit(40)]
    fn undo_last(&mut self)
        requires
            old(self).core_ok(),
            old(self).undo_trail@.len() > 0,
        ensures
            final(self).core_ok(),
            final(self).undo_trail@ == old(self).undo_trail@.drop_last(),
            final(self).parents@ == undo_step(old(self).parents@, old(self).undo_trail@.last()),
            final(self).table() == undo_table_step(old(self).table(), old(self).undo_trail@.last()),
            final(self).use_views() == undo_uses_step(old(self).use_views(), old(self).undo_trail@.last()),
            final(self).terms == old(self).terms,
            final(self).same_levels(*old(self)),
            final(self).rank == old(self).rank,
            final(self).rank_max == old(self).rank_max,
            final(self).pending_merges == old(self).pending_merges,
    {
        let ghost before = *self;
        let ghost n = self.terms@.len();
        let op = self.undo_trail.pop().unwrap();
        proof {
            assert(before.undo_trail@[before.undo_trail@.len() - 1] == op);
            assert(self.undo_trail@ =~= before.undo_trail@.drop_last());
            assert(self.op_ok(op));
            assert forall|k: int| 0 <= k < self.undo_trail@.len() implies self.op_ok(#[trigger] self.undo_trail@[k]) by {
                assert(self.undo_trail@[k] == before.undo_trail@[k]);
                assert(self.op_ok(before.undo_trail@[k]));
            }
        }
        match op {
            EufUndoOp::Merged { child, old_size, parent } => {
                self.parents.set(child, child);
                self.sizes.set(parent, old_size);
                proof {
                    assert forall|t: int| 0 <= t < n && #[trigger] self.parents@[t] != t implies self.rank@[self.parents@[t] as int]
                        > self.rank@[t] by {
                        assert(self.parents@[t] == before.parents@[t]);
                    }
                    assert forall|t: int| 0 <= t < n implies (#[trigger] self.parents@[t]) < n by {
                        if t != child {
                            assert(self.parents@[t] == before.parents@[t]);
                        }
                    }
                }
            },
            EufUndoOp::AppendedUseList { parent, count } => {
                let mut l = take_at(&mut self.use_list, parent);
                let new_len = l.len().saturating_sub(count);
                l.truncate(new_len);
                let ghost ul = self.use_list@;
                put_at(&mut self.use_list, parent, l);
                proof {
                    assert forall|t: int, i: int| 0 <= t < n && 0 <= i < self.use_list@[t].len() implies #[trigger] self.use_list@[t]@[i]
                        < n by {
                        if t != parent {
                            assert(self.use_list@[t] == before.use_list@[t]);
                        } else {
                            assert(self.use_list@[t]@[i] == before.use_list@[t]@[i]);
                        }
                    }
                }
            },
            EufUndoOp::ProofRerooted { changes } => {
                let ghost mid = *self;
                let mut i: usize = changes.len();
                while i > 0
                    invariant
                        i <= changes.len(),
                        self.parents == mid.parents,
                        self.sizes == mid.sizes,
                        self.terms == mid.terms,
                        self.sig_table == mid.sig_table,
                        self.use_list == mid.use_list,
                        self.pending_merges == mid.pending_merges,
                        self.undo_trail == mid.undo_trail,
                        self.same_levels(mid),
                        self.rank == mid.rank,
                        self.rank_max == mid.rank_max,
                        self.proof_tree@.len() == n,
                        forall|q: int|
                            0 <= q < changes.len() ==> (#[trigger] changes@[q]).0 < n && self.edge_ok(changes@[q].0 as int, changes@[q].1),
                        forall|t: int| 0 <= t < n ==> self.edge_ok(t, #[trigger] self.proof_tree@[t]),
                    decreases i,
                {
                    i -= 1;
                    let (node, old_edge) = changes[i];
                    let ghost pt = self.proof_tree@;
                    self.proof_tree.set(node, old_edge);
                    proof {
                        assert forall|t: int| 0 <= t < n implies self.edge_ok(t, #[trigger] self.proof_tree@[t]) by {
                            if t != node {
                                assert(self.proof_tree@[t] == pt[t]);
                            }
                        }
                    }
                }
            },
            EufUndoOp::SigInserted { sig } => {
                self.table_remove(&sig);
            },
            EufUndoOp::SigRemoved { sig, term } => {
                self.table_insert(sig, term);
            },
        }
    }

    /// Goes back to decision level `level`: every change made since that
    /// level was opened is undone, the queued merges are dropped, and the
    /// disequalities asserted since are forgotten. Nothing happens when fewer
    /// levels are open.
    pub fn cancel_until(&mut self, level: usize)
        requires
            old(self).wf(),
        ensures
            final(self).wf(),
            level >= old(self).levels() ==> *final(self) == *old(self),
            level < old(self).levels() ==> {
                &&& final(self).levels() == level
                &&& final(self).parent_links() == old(self).saved_levels()[level as int]
                &&& final(self).saved_levels() == old(self).saved_levels().take(level as int)
                &&& final(self).diseqs() == old(self).diseqs().take(old(self).diseq_marks()[level as int] as int)
                &&& final(self).diseq_marks() == old(self).diseq_marks().take(level as int)
                &&& final(self).pending().len() == 0
            },
            final(self).num_terms() == old(self).num_terms(),
            final(self).func_ids() == old(self).func_ids(),
            forall|x: int| 0 <= x < final(self).num_terms() ==> #[trigger] final(self).is_app(x) == old(self).is_app(x),
            forall|x: int| 0 <= x < final(self).num_terms() ==> #[trigger] final(self).symbol(x) == old(self).symbol(x),
            forall|x: int| 0 <= x < final(self).num_terms() ==> #[trigger] final(self).args(x) == old(self).args(x),
    {
        if level >= self.trail_lim.len() {
            return;
        }
        let ghost before = *self;
        let target_len = self.trail_lim[level];
        while self.undo_trail.len() > target_len
            invariant
                before.wf(),
                self.core_ok(),
                self.same_levels(before),
                self.terms == before.terms,
                level < self.trail_lim@.len(),
                target_len == self.trail_lim@[level as int],
                target_len <= self.undo_trail@.len(),
                forall|k: int|
                    0 <= k <= level ==> #[trigger] self.saved@[k] == undo_parents(
                        self.parents@,
                        self.undo_trail@.subrange(self.trail_lim@[k] as int, self.undo_trail@.len() as int),
                    ),
                forall|k: int|
                    0 <= k <= level ==> {
                        let suffix = self.undo_trail@.subrange(self.trail_lim@[k] as int, self.undo_trail@.len() as int);
                        &&& (#[trigger] self.snapshots@[k]).table() == undo_table(self.table(), suffix)
                        &&& self.snapshots@[k].use_views() == undo_uses(self.use_views(), suffix)
                    },
            decreases self.undo_trail@.len(),
        {
            let ghost pre = *self;
            self.undo_last();
            proof {
                assert forall|k: int| 0 <= k <= level implies {
                    let suffix = self.undo_trail@.subrange(self.trail_lim@[k] as int, self.undo_trail@.len() as int);
                    &&& (#[trigger] self.snapshots@[k]).table() == undo_table(self.table(), suffix)
                    &&& self.snapshots@[k].use_views() == undo_uses(self.use_views(), suffix)
                } by {
                    assert(self.trail_lim@[k] <= self.trail_lim@[level as int]);
                    let s_old = pre.undo_trail@.subrange(self.trail_lim@[k] as int, pre.undo_trail@.len() as int);
                    let s_new = self.undo_trail@.subrange(self.trail_lim@[k] as int, self.undo_trail@.len() as int);
                    assert(s_old.drop_last() =~= s_new);
                    assert(s_old.last() == pre.undo_trail@.last());
                }
                assert forall|k: int| 0 <= k <= level implies #[trigger] self.saved@[k] == undo_parents(
                    self.parents@,
                    self.undo_trail@.subrange(self.trail_lim@[k] as int, self.undo_trail@.len() as int),
                ) by {
                    assert(self.trail_lim@[k] <= self.trail_lim@[level as int]);
                    let s_old = pre.undo_trail@.subrange(self.trail_lim@[k] as int, pre.undo_trail@.len() as int);
                    let s_new = self.undo_trail@.subrange(self.trail_lim@[k] as int, self.undo_trail@.len() as int);
                    assert(s_old.drop_last() =~= s_new);
                    assert(s_old.last() == pre.undo_trail@.last());
                    assert(pre.saved@[k] == undo_parents(pre.parents@, s_old));
                }
            }
        }
        proof {
            let t = self.undo_trail@;
            assert(t.subrange(target_len as int, t.len() as int) =~= Seq::<EufUndoOp>::empty());
        }
        let ghost undone = *self;
        self.trail_lim.truncate(level);
        self.pending_merges.clear();
        let target_diseq = self.diseq_lim[level];
        self.disequalities.truncate(target_diseq);
        self.diseq_lim.truncate(level);
        proof {
            self.saved@ = self.saved@.take(level as int);
            assert(self.trail_lim@ =~= before.trail_lim@.take(level as int));
            assert(self.diseq_lim@ =~= before.diseq_lim@.take(level as int));
            assert(self.disequalities@ =~= before.disequalities@.take(target_diseq as int));
            let n = self.terms@.len();
            assert(target_diseq <= before.disequalities@.len());
            assert forall|k: int| 0 <= k < self.disequalities@.len() implies (#[trigger] self.disequalities@[k]).0 < n
                && self.disequalities@[k].1 < n by {
                assert(self.disequalities@[k] == before.disequalities@[k]);
            }
            assert forall|k: int| 0 <= k < self.diseq_lim@.len() implies #[trigger] self.diseq_lim@[k]
                <= self.disequalities@.len() by {
                assert(before.diseq_lim@[k] <= before.diseq_lim@[level as int]);
            }
            assert forall|k: int| 0 <= k < self.trail_lim@.len() implies #[trigger] self.trail_lim@[k]
                <= self.undo_trail@.len() by {
                assert(before.trail_lim@[k] <= before.trail_lim@[level as int]);
            }
            assert forall|k: int| 0 <= k < self.saved@.len() implies #[trigger] self.saved@[k] == undo_parents(
                self.parents@,
                self.undo_trail@.subrange(self.trail_lim@[k] as int, self.undo_trail@.len() as int),
            ) by {
                assert(undone.saved@[k] == self.saved@[k]);
                assert(undone.trail_lim@[k] == self.trail_lim@[k]);
            }
            assert(undone.saved@[level as int] == self.parents@);
            self.snapshots@ = self.snapshots@.take(level as int);
            assert forall|k: int| 0 <= k < self.snapshots@.len() implies {
                let suffix = self.undo_trail@.subrange(self.trail_lim@[k] as int, self.undo_trail@.len() as int);
                &&& (#[trigger] self.snapshots@[k]).table() == undo_table(self.table(), suffix)
                &&& self.snapshots@[k].use_views() == undo_uses(self.use_views(), suffix)
                &&& self.snapshots@[k].terms@ == self.terms@
                &&& self.snapshots@[k].core_ok()
                &&& self.snapshots@[k].closure_ok()
                &&& self.snapshots@[k].sound_ok()
                &&& self.snapshots@[k].pending_merges@.len() == 0
            } by {
                assert(undone.snapshots@[k] == self.snapshots@[k]);
                assert(undone.trail_lim@[k] == self.trail_lim@[k]);
                assert(self.use_views() == undone.use_views());
            }
            assert forall|k: int| 0 <= k < self.snapshots@.len() implies #[trigger] self.snapshots@[k].parents@ == self.saved@[k] by {
                assert(undone.snapshots@[k] == self.snapshots@[k]);
                assert(undone.saved@[k] == self.saved@[k]);
            }
            let snap = undone.snapshots@[level as int];
            let empty = undone.undo_trail@.subrange(undone.trail_lim@[level as int] as int, undone.undo_trail@.len() as int);
            assert(empty =~= Seq::<EufUndoOp>::empty());
            assert(snap.table() == self.table());
            assert(snap.use_views() == self.use_views());
            assert(snap.parents@ == self.parents@);
            assert(snap.terms@ == self.terms@);
            assert forall|u: int, w: int|
                0 <= u < self.terms@.len() && 0 <= w < self.terms@.len() && #[trigger] snap.settled(u, w) implies self.settled(u, w) by {
                if snap.pending_merges@.contains((u as usize, w as usize)) {
                    let q = choose|q: int| 0 <= q < snap.pending_merges@.len() && snap.pending_merges@[q] == (u as usize, w as usize);
                }
                self.lemma_root_frame(snap, u);
                self.lemma_root_frame(snap, w);
            }
            self.lemma_closure_settled(snap);
            self.lemma_sound_frame(snap);
            assert forall|x: int| 0 <= x < self.num_terms() implies #[trigger] self.is_app(x) == before.is_app(x) by {}
        }
    }

    /// States with the same parent links have the same classes; so going back
    /// to a level gives back the classes that it was opened with.
    pub proof fn lemma_same_links_same_classes(a: EufTheory, b: EufTheory)
        requires
            a.wf(),
            b.wf(),
            a.parent_links() == b.parent_links(),
        ensures
            a.num_terms() == b.num_terms(),
            forall|x: int| 0 <= x < a.num_terms() ==> #[trigger] a.root(x) == b.root(x),
    {
        assert forall|x: int| 0 <= x < a.num_terms() implies #[trigger] a.root(x) == b.root(x) by {
            a.lemma_root_frame(b, x);
        }
    }

    /// The literal on the proof edge leaving `t`, if any.
    pub closed spec fn edge_reason(self, t: int) -> Option<Lit> {
        match self.proof_tree@[t] {
            Some(e) => e.reason,
            None => None,
        }
    }

    /// Where `k` proof edges lead from `a`, if that many lead on.
    pub closed spec fn walk(self, a: int, k: nat) -> Option<int>
        decreases k,
    {
        if k == 0 {
            Some(a)
        } else if 0 <= a < self.proof_tree@.len() {
            match self.proof_tree@[a] {
                Some(e) => self.walk(e.target as int, (k - 1) as nat),
                None => None,
            }
        } else {
            None
        }
    }

    proof fn lemma_walk_extend(self, a: int, k: nat, c: int)
        requires
            self.walk(a, k) == Some(c),
            0 <= c < self.proof_tree@.len(),
            self.proof_tree@[c] is Some,
        ensures
            self.walk(a, k + 1) == Some(self.proof_tree@[c]->0.target as int),
        decreases k,
    {
        if k > 0 {
            let e = self.proof_tree@[a]->0;
            self.lemma_walk_extend(e.target as int, (k - 1) as nat, c);
            assert(self.walk(a, k + 1) == self.walk(e.target as int, k));
        } else {
            let t = self.proof_tree@[c]->0.target as int;
            assert(self.walk(t, 0) == Some(t));
            assert(self.walk(a, 1) == self.walk(t, 0));
        }
    }

    proof fn lemma_walk_stops(self, a: int, k: nat, c: int, j: nat)
        requires
            self.walk(a, k) == Some(c),
            0 <= c < self.proof_tree@.len(),
            self.proof_tree@[c] is None,
            j > k,
        ensures
            self.walk(a, j) is None,
        decreases k,
    {
        if k > 0 {
            let e = self.proof_tree@[a]->0;
            self.lemma_walk_stops(e.target as int, (k - 1) as nat, c, (j - 1) as nat);
        }
    }

    /// Whether `t` lies within as many proof edges of `a` as there are terms.
    pub closed spec fn reaches(self, a: int, t: int) -> bool {
        exists|k: nat| k <= self.num_terms() && #[trigger] self.walk(a, k) == Some(t)
    }

    /// Whether the node `j` proof edges from `b` is the first node on the
    /// proof path from `b` (within as many steps as there are terms) that
    /// [`Self::reaches`] from `a`.
    pub closed spec fn meets_at(self, a: int, b: int, j: nat) -> bool {
        &&& j <= self.num_terms()
        &&& self.walk(b, j) is Some
        &&& self.reaches(a, self.walk(b, j)->0)
        &&& forall|i: nat| i < j ==> !(#[trigger] self.walk(b, i) is Some && self.reaches(a, self.walk(b, i)->0))
    }

    /// The node where the proof paths from `a` and `b` first meet, walking
    /// up from `b`; `None` when no node within as many steps as there are
    /// terms lies on both.
    pub closed spec fn meeting(self, a: int, b: int) -> Option<int> {
        if exists|j: nat| self.meets_at(a, b, j) {
            self.walk(b, choose|j: nat| self.meets_at(a, b, j))
        } else {
            None
        }
    }

    proof fn lemma_meets_at_unique(self, a: int, b: int, j: nat)
        requires
            self.meets_at(a, b, j),
        ensures
            self.meeting(a, b) == self.walk(b, j),
    {
        let j2 = choose|j2: nat| self.meets_at(a, b, j2);
        assert(self.meets_at(a, b, j2));
        if j2 < j {
            assert(self.walk(b, j2) is Some);
        } else if j < j2 {
            assert(self.walk(b, j) is Some);
        }
    }

    /// The node where the proof paths from `a` and `b` meet: the first node on
    /// the path from `b` that lies on the path from `a`. `None` when no such
    /// node is found within as many steps as there are terms.
    fn lca(&self, a: usize, b: usize) -> (r: Option<usize>)
        requires
            self.core_ok(),
            a < self.num_terms(),
            b < self.num_terms(),
        ensures
            r matches Some(l) ==> {
                &&& l < self.num_terms()
                &&& exists|k: nat| self.walk(a as int, k) == Some(l as int)
                &&& exists|k: nat| self.walk(b as int, k) == Some(l as int)
            },
            r matches Some(l) ==> self.meeting(a as int, b as int) == Some(l as int),
            r is None ==> self.meeting(a as int, b as int) is None,
    {
        let n = self.terms.len();
        let mut ancestors: Vec<bool> = Vec::new();
        let mut i: usize = 0;
        while i < n
            invariant
                i <= n,
                ancestors@.len() == i,
                forall|t: int| 0 <= t < i ==> !ancestors@[t],
            decreases n - i,
        {
            ancestors.push(false);
            i += 1;
        }
        let mut curr = a;
        let ghost mut ka: nat = 0;
        ancestors.set(curr, true);
        let mut fuel = n;
        proof {
            assert(self.walk(a as int, 0) == Some(a as int));
            assert forall|t: int| 0 <= t < n implies (#[trigger] ancestors@[t] <==> exists|k: nat|
                k <= ka && self.walk(a as int, k) == Some(t)) by {
                if t == a {
                    assert(self.walk(a as int, 0) == Some(t));
                }
            }
        }
        loop
            invariant
                self.core_ok(),
                n == self.num_terms(),
                ancestors@.len() == n,
                curr < n,
                ka + fuel == n,
                self.walk(a as int, ka) == Some(curr as int),
                forall|t: int|
                    0 <= t < n ==> (#[trigger] ancestors@[t] <==> exists|k: nat| k <= ka && self.walk(a as int, k) == Some(t)),
            ensures
                ancestors@.len() == n,
                forall|t: int| 0 <= t < n ==> (#[trigger] ancestors@[t] <==> self.reaches(a as int, t)),
            decreases fuel,
        {
            if fuel == 0 {
                proof {
                    assert forall|t: int| 0 <= t < n implies (#[trigger] ancestors@[t] <==> self.reaches(a as int, t)) by {
                        if ancestors@[t] {
                            let k = choose|k: nat| k <= ka && self.walk(a as int, k) == Some(t);
                        }
                        if self.reaches(a as int, t) {
                            let k = choose|k: nat| k <= self.num_terms() && #[trigger] self.walk(a as int, k) == Some(t);
                        }
                    }
                }
                break;
            }
            match self.proof_tree[curr] {
                Some(edge) => {
                    proof {
                        self.lemma_walk_extend(a as int, ka, curr as int);
                    }
                    let ghost ka0 = ka;
                    proof {
                        ka = ka + 1;
                    }
                    curr = edge.target;
                    let ghost prev = ancestors@;
                    ancestors.set(curr, true);
                    fuel -= 1;
                    proof {
                        assert forall|t: int| 0 <= t < n implies (#[trigger] ancestors@[t] <==> exists|k: nat|
                            k <= ka && self.walk(a as int, k) == Some(t)) by {
                            if t != curr {
                                assert(ancestors@[t] == prev[t]);
                                if prev[t] {
                                    let k = choose|k: nat| k <= ka0 && self.walk(a as int, k) == Some(t);
                                }
                                if exists|k: nat| k <= ka && self.walk(a as int, k) == Some(t) {
                                    let k = choose|k: nat| k <= ka && self.walk(a as int, k) == Some(t);
                                    assert(k != ka);
                                    assert(k <= ka0 && self.walk(a as int, k) == Some(t));
                                }
                            } else {
                                assert(self.walk(a as int, ka) == Some(t));
                            }
                        }
                    }
                },
                None => {
                    proof {
                        assert forall|t: int| 0 <= t < n implies (#[trigger] ancestors@[t] <==> self.reaches(a as int, t)) by {
                            if ancestors@[t] {
                                let k = choose|k: nat| k <= ka && self.walk(a as int, k) == Some(t);
                            }
                            if self.reaches(a as int, t) {
                                let k = choose|k: nat| k <= self.num_terms() && #[trigger] self.walk(a as int, k) == Some(t);
                                if k > ka {
                                    self.lemma_walk_stops(a as int, ka, curr as int, k);
                                }
                            }
                        }
                    }
                    break;
                },
            }
        }
        let mut l = b;
        let ghost mut kb: nat = 0;
        let mut fuel2 = n;
        while !ancestors[l]
            invariant
                self.core_ok(),
                n == self.num_terms(),
                ancestors@.len() == n,
                l < n,
                kb + fuel2 == n,
                self.walk(b as int, kb) == Some(l as int),
                forall|t: int| 0 <= t < n ==> (#[trigger] ancestors@[t] <==> self.reaches(a as int, t)),
                forall|t: int| 0 <= t < n && #[trigger] ancestors@[t] ==> exists|k: nat| self.walk(a as int, k) == Some(t),
                forall|i: nat|
                    i < kb ==> !(#[trigger] self.walk(b as int, i) is Some && self.reaches(a as int, self.walk(b as int, i)->0)),
            decreases fuel2,
        {
            if fuel2 == 0 {
                proof {
                    if exists|j: nat| self.meets_at(a as int, b as int, j) {
                        let j = choose|j: nat| self.meets_at(a as int, b as int, j);
                        assert(j <= kb);
                        if j < kb {
                            assert(self.walk(b as int, j) is Some);
                        }
                    }
                }
                return None;
            }
            match self.proof_tree[l] {
                Some(edge) => {
                    proof {
                        self.lemma_walk_extend(b as int, kb, l as int);
                        assert(!self.reaches(a as int, l as int));
                        assert forall|i: nat|
                            i < kb + 1 implies !(#[trigger] self.walk(b as int, i) is Some && self.reaches(
                            a as int,
                            self.walk(b as int, i)->0,
                        )) by {
                            if i == kb {
                                assert(self.walk(b as int, i) == Some(l as int));
                            }
                        }
                        kb = kb + 1;
                    }
                    l = edge.target;
                    fuel2 -= 1;
                },
                None => {
                    proof {
                        if exists|j: nat| self.meets_at(a as int, b as int, j) {
                            let j = choose|j: nat| self.meets_at(a as int, b as int, j);
                            if j > kb {
                                self.lemma_walk_stops(b as int, kb, l as int, j);
                            } else if j < kb {
                                assert(self.walk(b as int, j) is Some);
                            }
                        }
                    }
                    return None;
                },
            }
        }
        proof {
            assert(ancestors@[l as int]);
            assert(self.meets_at(a as int, b as int, kb));
            self.lemma_meets_at_unique(a as int, b as int, kb);
        }
        Some(l)
    }

    /// Whether every literal of `lits` from index `from` on is the reason of
    /// a proof edge.
    pub closed spec fn reasons_from(self, lits: Seq<Lit>, from: int) -> bool {
        forall|i: int| from <= i < lits.len() ==> self.is_reason(#[trigger] lits[i])
    }

    /// Whether `l` is the literal of some proof edge.
    pub closed spec fn is_reason(self, l: Lit) -> bool {
        exists|t: int| 0 <= t < self.num_terms() && #[trigger] self.edge_reason(t) == Some(l)
    }

    /// Whether none of the first `i + 1` nodes on the proof path from `s` is
    /// `stop`.
    pub closed spec fn avoids(self, s: int, stop: int, i: nat) -> bool {
        forall|i2: nat| i2 <= i ==> #[trigger] self.walk(s, i2) != Some(stop)
    }

    /// Whether the literal of every proof edge leaving a node marked in
    /// `done` occurs in `lits` from index `from` on.
    pub closed spec fn explained(self, done: Seq<bool>, lits: Seq<Lit>, from: int) -> bool {
        forall|t: int|
            0 <= t < done.len() && #[trigger] done[t] && self.edge_reason(t) is Some ==> exists|p: int|
                from <= p < lits.len() && lits[p] == self.edge_reason(t)->0
    }

    /// Whether the literal of every proof edge on the path from `s` up to
    /// (not including) `m` occurs in `lits` from index `from` on.
    pub closed spec fn path_explained(self, s: int, m: int, lits: Seq<Lit>, from: int) -> bool {
        forall|i: nat|
            #[trigger] self.walk(s, i) is Some && self.avoids(s, m, i) && self.edge_reason(self.walk(s, i)->0) is Some
                ==> exists|p: int| from <= p < lits.len() && lits[p] == self.edge_reason(self.walk(s, i)->0)->0
    }

    /// The literals of `lits` from index `from` on are the reasons of
    /// distinct proof edges, each leaving a node marked in `done`: `src`
    /// gives the node of each.
    pub open spec fn sourced_by(self, src: Seq<int>, done: Seq<bool>, lits: Seq<Lit>, from: int) -> bool {
        &&& from <= lits.len()
        &&& src.len() == lits.len() - from
        &&& src.no_duplicates()
        &&& forall|q: int|
            0 <= q < src.len() ==> 0 <= #[trigger] src[q] < done.len() && done[src[q]] && self.edge_reason(src[q]) == Some(
                lits[from + q],
            )
    }

    /// Law: when no two proof edges carry the same literal, literals that are
    /// the reasons of distinct proof edges (as [`Self::explain`] appends
    /// them) are pairwise distinct.
    pub proof fn lemma_explained_distinct(self, src: Seq<int>, lits: Seq<Lit>, from: int)
        requires
            0 <= from <= lits.len(),
            src.len() == lits.len() - from,
            src.no_duplicates(),
            forall|q: int| 0 <= q < src.len() ==> self.edge_reason(#[trigger] src[q]) == Some(lits[from + q]),
            forall|a: int, b: int|
                a != b && (#[trigger] self.edge_reason(a)) is Some ==> self.edge_reason(a) != #[trigger] self.edge_reason(b),
        ensures
            forall|i: int, j: int| from <= i < j < lits.len() ==> lits[i] != lits[j],
    {
        assert forall|i: int, j: int| from <= i < j < lits.len() implies lits[i] != lits[j] by {
            assert(self.edge_reason(src[i - from]) == Some(lits[i]));
            assert(self.edge_reason(src[j - from]) == Some(lits[j]));
            assert(src[i - from] != src[j - from]);
        }
    }

    /// Whether every node on the proof path from `s` up to (not including)
    /// `m` is marked in `done`.
    pub closed spec fn path_done(self, s: int, m: int, done: Seq<bool>) -> bool {
        forall|i: nat|
            #[trigger] self.walk(s, i) is Some && self.avoids(s, m, i) ==> {
                let t = self.walk(s, i)->0;
                0 <= t < done.len() && done[t]
            }
    }

    /// Whether, when `t1` and `t2` differ and their proof paths meet, every
    /// node on both paths up to the meeting node is marked in `done`.
    pub closed spec fn pair_done(self, t1: int, t2: int, done: Seq<bool>) -> bool {
        t1 != t2 ==> (self.meeting(t1, t2) matches Some(m) ==> self.path_done(t1, m, done) && self.path_done(t2, m, done))
    }

    proof fn lemma_path_done_grows(self, s: int, m: int, d0: Seq<bool>, d1: Seq<bool>)
        requires
            self.path_done(s, m, d0),
            d0.len() == d1.len(),
            forall|t: int| 0 <= t < d0.len() && #[trigger] d0[t] ==> d1[t],
        ensures
            self.path_done(s, m, d1),
    {
        assert forall|i: nat| #[trigger] self.walk(s, i) is Some && self.avoids(s, m, i) implies {
            let t = self.walk(s, i)->0;
            0 <= t < d1.len() && d1[t]
        } by {
            assert(d0[self.walk(s, i)->0]);
        }
    }

    proof fn lemma_path_explained(self, s: int, m: int, done: Seq<bool>, lits: Seq<Lit>, from: int)
        requires
            self.path_done(s, m, done),
            self.explained(done, lits, from),
        ensures
            self.path_explained(s, m, lits, from),
    {
        assert forall|i: nat|
            #[trigger] self.walk(s, i) is Some && self.avoids(s, m, i) && self.edge_reason(self.walk(s, i)->0) is Some implies exists|p: int|
            from <= p < lits.len() && lits[p] == self.edge_reason(self.walk(s, i)->0)->0 by {
            let t = self.walk(s, i)->0;
            assert(done[t]);
        }
    }

    /// Follows the proof edges from `start` up to `stop`, explaining each edge
    /// not explained yet: its literal is appended, or, for a congruence, the
    /// argument pairs are queued. Every node on the way is marked done.
    fn explain_path(
        &self,
        start: usize,
        stop: usize,
        done: &mut Vec<bool>,
        queue: &mut Vec<(usize, usize)>,
        explanation: &mut Vec<Lit>,
        Ghost(from): Ghost<int>,
    )
        requires
            self.core_ok(),
            start < self.num_terms(),
            stop < self.num_terms(),
            exists|k: nat| self.walk(start as int, k) == Some(stop as int),
            old(done)@.len() == self.num_terms(),
            forall|q: int| 0 <= q < old(queue)@.len() ==> (#[trigger] old(queue)@[q]).0 < self.num_terms() && old(queue)@[q].1 < self.num_terms(),
            0 <= from <= old(explanation)@.len(),
            self.explained(old(done)@, old(explanation)@, from),
            exists|src: Seq<int>| self.sourced_by(src, old(done)@, old(explanation)@, from),
        ensures
            final(done)@.len() == self.num_terms(),
            forall|q: int|
                0 <= q < final(queue)@.len() ==> (#[trigger] final(queue)@[q]).0 < self.num_terms() && final(queue)@[q].1 < self.num_terms(),
            count_false(final(done)@) + final(explanation)@.len() - old(explanation)@.len() <= count_false(old(done)@),
            count_false(final(done)@) == count_false(old(done)@) ==> final(queue)@ == old(queue)@,
            final(explanation)@.len() >= old(explanation)@.len(),
            final(explanation)@.subrange(0, old(explanation)@.len() as int) == old(explanation)@,
            self.reasons_from(final(explanation)@, old(explanation)@.len() as int),
            forall|t: int| 0 <= t < self.num_terms() && #[trigger] old(done)@[t] ==> final(done)@[t],
            self.path_done(start as int, stop as int, final(done)@),
            self.explained(final(done)@, final(explanation)@, from),
            exists|src: Seq<int>| self.sourced_by(src, final(done)@, final(explanation)@, from),
    {
        let ghost mut src: Seq<int> = choose|src: Seq<int>| self.sourced_by(src, done@, explanation@, from);
        let ghost n = self.num_terms();
        let ghost mut k: nat = choose|k: nat| self.walk(start as int, k) == Some(stop as int);
        let ghost mut pos: nat = 0;
        let mut curr = start;
        proof {
            assert(self.walk(start as int, 0) == Some(start as int));
        }
        while curr != stop
            invariant
                self.core_ok(),
                n == self.num_terms(),
                curr < n,
                stop < n,
                self.walk(curr as int, k) == Some(stop as int),
                self.walk(start as int, pos) == Some(curr as int),
                done@.len() == n,
                forall|q: int| 0 <= q < queue@.len() ==> (#[trigger] queue@[q]).0 < n && queue@[q].1 < n,
                count_false(done@) + explanation@.len() - old(explanation)@.len() <= count_false(old(done)@),
                count_false(done@) == count_false(old(done)@) ==> queue@ == old(queue)@,
                explanation@.len() >= old(explanation)@.len(),
                explanation@.subrange(0, old(explanation)@.len() as int) == old(explanation)@,
                self.reasons_from(explanation@, old(explanation)@.len() as int),
                0 <= from <= old(explanation)@.len(),
                forall|t: int| 0 <= t < n && #[trigger] old(done)@[t] ==> done@[t],
                forall|i: nat|
                    i < pos ==> {
                        &&& #[trigger] self.walk(start as int, i) is Some
                        &&& self.walk(start as int, i) != Some(stop as int)
                        &&& 0 <= self.walk(start as int, i)->0 < n
                        &&& done@[self.walk(start as int, i)->0]
                    },
                self.explained(done@, explanation@, from),
                self.sourced_by(src, done@, explanation@, from),
            decreases k,
        {
            let edge = match self.proof_tree[curr] {
                Some(e) => e,
                None => {
                    proof {
                        assert(k > 0);
                        assert(false);
                    }
                    return;
                },
            };
            proof {
                assert(k > 0);
                self.lemma_walk_extend(start as int, pos, curr as int);
                k = (k - 1) as nat;
            }
            if !done[curr] {
                let ghost d0 = done@;
                let ghost e0 = explanation@;
                let ghost q0 = queue@;
                done.set(curr, true);
                proof {
                    lemma_count_false_set(d0, curr as int);
                }
                match edge.reason {
                    Some(lit) => {
                        explanation.push(lit);
                        proof {
                            assert(self.edge_reason(curr as int) == Some(lit));
                            let src0 = src;
                            assert(!src0.contains(curr as int)) by {
                                if src0.contains(curr as int) {
                                    let q = choose|q: int| 0 <= q < src0.len() && src0[q] == curr as int;
                                    assert(d0[src0[q]]);
                                }
                            }
                            src = src0.push(curr as int);
                            assert(src.no_duplicates()) by {
                                assert forall|a: int, b: int| 0 <= a < b < src.len() implies src[a] != src[b] by {
                                    if b == src0.len() {
                                        assert(src0.contains(src[a]));
                                    }
                                }
                            }
                            assert forall|q: int| 0 <= q < src.len() implies 0 <= #[trigger] src[q] < done@.len() && done@[src[q]]
                                && self.edge_reason(src[q]) == Some(explanation@[from + q]) by {
                                if q < src0.len() {
                                    assert(explanation@[from + q] == e0[from + q]);
                                }
                            }
                            assert forall|i: int| old(explanation)@.len() <= i < explanation@.len() implies self.is_reason(#[trigger] explanation@[i]) by {
                                if i < e0.len() {
                                    assert(explanation@[i] == e0[i]);
                                } else {
                                    assert(explanation@[i] == lit);
                                }
                            }
                            assert(explanation@.subrange(0, old(explanation)@.len() as int) =~= e0.subrange(
                                0,
                                old(explanation)@.len() as int,
                            ));
                            assert forall|t: int|
                                0 <= t < done@.len() && #[trigger] done@[t] && self.edge_reason(t) is Some implies exists|p: int|
                                from <= p < explanation@.len() && explanation@[p] == self.edge_reason(t)->0 by {
                                if t == curr {
                                    assert(explanation@[e0.len() as int] == lit);
                                } else {
                                    assert(d0[t]);
                                    let p = choose|p: int| from <= p < e0.len() && e0[p] == self.edge_reason(t)->0;
                                    assert(explanation@[p] == e0[p]);
                                }
                            }
                        }
                    },
                    None => {
                        proof {
                            assert(self.edge_ok(curr as int, self.proof_tree@[curr as int]));
                            assert(self.terms@[curr as int] is App && self.terms@[edge.target as int] is App);
                            assert(self.edge_reason(curr as int) is None);
                            assert forall|t: int|
                                0 <= t < done@.len() && #[trigger] done@[t] && self.edge_reason(t) is Some implies exists|p: int|
                                from <= p < explanation@.len() && explanation@[p] == self.edge_reason(t)->0 by {
                                assert(d0[t]);
                            }
                        }
                        if let Term::App(_, xs) = &self.terms[curr] {
                            if let Term::App(_, ys) = &self.terms[edge.target] {
                                proof {
                                    assert(forall|i: int| 0 <= i < xs.len() ==> xs@[i] < n);
                                    assert(forall|i: int| 0 <= i < ys.len() ==> ys@[i] < n);
                                }
                                let mut i: usize = 0;
                                while i < xs.len() && i < ys.len()
                                    invariant
                                        forall|j: int| 0 <= j < xs.len() ==> xs@[j] < n,
                                        forall|j: int| 0 <= j < ys.len() ==> ys@[j] < n,
                                        forall|q: int| 0 <= q < queue@.len() ==> (#[trigger] queue@[q]).0 < n && queue@[q].1 < n,
                                    decreases xs.len() - i,
                                {
                                    let ghost qp = queue@;
                                    queue.push((xs[i], ys[i]));
                                    proof {
                                        assert forall|q: int| 0 <= q < queue@.len() implies (#[trigger] queue@[q]).0 < n && queue@[q].1
                                            < n by {
                                            if q < qp.len() {
                                                assert(queue@[q] == qp[q]);
                                            }
                                        }
                                    }
                                    i += 1;
                                }
                            }
                        }
                    },
                }
            }
            proof {
                assert forall|i: nat| i < pos + 1 implies {
                    &&& #[trigger] self.walk(start as int, i) is Some
                    &&& self.walk(start as int, i) != Some(stop as int)
                    &&& 0 <= self.walk(start as int, i)->0 < n
                    &&& done@[self.walk(start as int, i)->0]
                } by {
                    if i == pos {
                        assert(self.walk(start as int, i) == Some(curr as int));
                    }
                }
                pos = pos + 1;
            }
            curr = edge.target;
        }
        proof {
            assert forall|i: nat|
                #[trigger] self.walk(start as int, i) is Some && self.avoids(start as int, stop as int, i) implies {
                let t = self.walk(start as int, i)->0;
                0 <= t < done@.len() && done@[t]
            } by {
                if i >= pos {
                    assert(self.walk(start as int, pos) == Some(stop as int));
                }
            }
        }
    }

    /// Appends to `explanation` literals that justify `t1 = t2`: the reasons
    /// on the proof paths between them, congruence edges being explained by
    /// the equalities of their arguments. Each proof edge is used at most once.
    pub fn explain(&self, t1: usize, t2: usize, explanation: &mut Vec<Lit>)
        requires
            self.wf(),
            t1 < self.num_terms(),
            t2 < self.num_terms(),
            self.root(t1 as int) == self.root(t2 as int),
        ensures
            final(explanation)@.len() >= old(explanation)@.len(),
            final(explanation)@.len() - old(explanation)@.len() <= self.num_terms(),
            final(explanation)@.subrange(0, old(explanation)@.len() as int) == old(explanation)@,
            self.reasons_from(final(explanation)@, old(explanation)@.len() as int),
            exists|src: Seq<int>|
                {
                    &&& src.len() == final(explanation)@.len() - old(explanation)@.len()
                    &&& src.no_duplicates()
                    &&& forall|q: int|
                        0 <= q < src.len() ==> self.edge_reason(#[trigger] src[q]) == Some(
                            final(explanation)@[old(explanation)@.len() + q],
                        )
                },
            t1 != t2 ==> (self.meeting(t1 as int, t2 as int) matches Some(m) ==> {
                &&& self.path_explained(t1 as int, m, final(explanation)@, old(explanation)@.len() as int)
                &&& self.path_explained(t2 as int, m, final(explanation)@, old(explanation)@.len() as int)
            }),
    {
        let ghost base = old(explanation)@.len() as int;
        let n = self.terms.len();
        let mut queue: Vec<(usize, usize)> = Vec::new();
        queue.push((t1, t2));
        let mut done: Vec<bool> = Vec::new();
        let mut i: usize = 0;
        while i < n
            invariant
                i <= n,
                done@.len() == i,
                forall|t: int| 0 <= t < i ==> !done@[t],
            decreases n - i,
        {
            done.push(false);
            i += 1;
        }
        let ghost mut first = true;
        proof {
            assert(self.sourced_by(Seq::<int>::empty(), done@, explanation@, base));
            lemma_count_false_all(done@);
            assert(explanation@.subrange(0, explanation@.len() as int) =~= explanation@);
            assert(queue@ == seq![(t1, t2)]);
        }
        while queue.len() > 0
            invariant
                self.wf(),
                n == self.num_terms(),
                done@.len() == n,
                forall|q: int| 0 <= q < queue@.len() ==> (#[trigger] queue@[q]).0 < n && queue@[q].1 < n,
                count_false(done@) + explanation@.len() - old(explanation)@.len() <= n,
                explanation@.len() >= old(explanation)@.len(),
                explanation@.subrange(0, old(explanation)@.len() as int) == old(explanation)@,
                self.reasons_from(explanation@, old(explanation)@.len() as int),
                base == old(explanation)@.len(),
                self.explained(done@, explanation@, base),
                exists|src: Seq<int>| self.sourced_by(src, done@, explanation@, base),
                first ==> queue@ == seq![(t1, t2)],
                !first ==> self.pair_done(t1 as int, t2 as int, done@),
            decreases count_false(done@), queue@.len(),
        {
            let ghost qpre = queue@;
            let (a, b) = queue.pop().unwrap();
            let ghost q1 = queue@;
            let ghost c0 = count_false(done@);
            let ghost was_first = first;
            proof {
                if first {
                    assert((a, b) == qpre[0]);
                }
                first = false;
            }
            if a != b {
                if let Some(l) = self.lca(a, b) {
                    let ghost e0 = explanation@;
                    let ghost d0 = done@;
                    self.explain_path(a, l, &mut done, &mut queue, explanation, Ghost(base));
                    let ghost e1 = explanation@;
                    let ghost d1 = done@;
                    self.explain_path(b, l, &mut done, &mut queue, explanation, Ghost(base));
                    proof {
                        assert(explanation@.subrange(0, old(explanation)@.len() as int) =~= e1.subrange(
                            0,
                            e1.len() as int,
                        ).subrange(0, old(explanation)@.len() as int));
                        assert(e1.subrange(0, old(explanation)@.len() as int) =~= e0.subrange(0, e0.len() as int).subrange(
                            0,
                            old(explanation)@.len() as int,
                        ));
                        assert forall|i: int| old(explanation)@.len() <= i < explanation@.len() implies self.is_reason(#[trigger] explanation@[i]) by {
                            if i < e1.len() {
                                assert(explanation@.subrange(0, e1.len() as int)[i] == explanation@[i]);
                                if i >= e0.len() {
                                    assert(self.reasons_from(e1, e0.len() as int));
                                } else {
                                    assert(e1.subrange(0, e0.len() as int)[i] == e1[i]);
                                }
                            }
                        }
                        assert(forall|t: int| 0 <= t < n && #[trigger] d0[t] ==> done@[t]);
                        if was_first {
                            self.lemma_path_done_grows(a as int, l as int, d1, done@);
                        } else if t1 != t2 {
                            if let Some(m) = self.meeting(t1 as int, t2 as int) {
                                self.lemma_path_done_grows(t1 as int, m, d0, done@);
                                self.lemma_path_done_grows(t2 as int, m, d0, done@);
                            }
                        }
                    }
                }
            }
        }
        proof {
            let src = choose|src: Seq<int>| self.sourced_by(src, done@, explanation@, base);
            assert(forall|q: int|
                0 <= q < src.len() ==> self.edge_reason(#[trigger] src[q]) == Some(explanation@[base + q]));
            if t1 != t2 {
                if let Some(m) = self.meeting(t1 as int, t2 as int) {
                    self.lemma_path_explained(t1 as int, m, done@, explanation@, base);
                    self.lemma_path_explained(t2 as int, m, done@, explanation@, base);
                }
            }
        }
    }

    /// The conflict clause for the disequality `t1 != t2` justified by
    /// `reason` when `t1 = t2` holds: the negation of `reason` and of the
    /// literals explaining the equality.
    fn conflict(&self, t1: usize, t2: usize, reason: Lit) -> (r: Vec<Lit>)
        requires
            self.wf(),
            t1 < self.num_terms(),
            t2 < self.num_terms(),
            self.root(t1 as int) == self.root(t2 as int),
        ensures
            r.len() >= 1,
            r.len() <= self.num_terms() + 1,
            r@[0] == reason.negated(),
            forall|i: int| 1 <= i < r.len() ==> self.is_reason(#[trigger] r@[i].negated()),
    {
        let mut lemma: Vec<Lit> = Vec::new();
        lemma.push(reason);
        self.explain(t1, t2, &mut lemma);
        let mut out: Vec<Lit> = Vec::new();
        let mut i: usize = 0;
        while i < lemma.len()
            invariant
                i <= lemma.len(),
                out.len() == i,
                forall|j: int| 0 <= j < i ==> #[trigger] out@[j] == lemma@[j].negated(),
            decreases lemma.len() - i,
        {
            out.push(lemma[i].negate());
            i += 1;
        }
        proof {
            assert(lemma@.subrange(0, 1)[0] == lemma@[0]);
            assert forall|i: int| 1 <= i < out.len() implies self.is_reason(#[trigger] out@[i].negated()) by {
                assert(out@[i].negated() == lemma@[i]);
            }
        }
        out
    }

    /// Records `t1 != t2`, justified by `reason`. When `t1 = t2` already
    /// holds, nothing is recorded and the conflict clause is returned.
    pub fn assert_disequality(&mut self, t1: usize, t2: usize, reason: Lit) -> (r: Result<bool, Vec<Lit>>)
        requires
            old(self).wf(),
            t1 < old(self).num_terms(),
            t2 < old(self).num_terms(),
        ensures
            final(self).wf(),
            r is Err <==> old(self).root(t1 as int) == old(self).root(t2 as int),
            r is Ok ==> r == Ok::<bool, Vec<Lit>>(true) && final(self).diseqs() == old(self).diseqs().push((t1, t2, reason)),
            r is Err ==> *final(self) == *old(self),
            r matches Err(c) ==> c.len() >= 1 && c@[0] == reason.negated() && forall|i: int|
                1 <= i < c.len() ==> old(self).is_reason(#[trigger] c@[i].negated()),
            final(self).same_classes(*old(self)),
            final(self).levels() == old(self).levels(),
            final(self).saved_levels() == old(self).saved_levels(),
            final(self).diseq_marks() == old(self).diseq_marks(),
            final(self).func_ids() == old(self).func_ids(),
    {
        if self.find(t1) == self.find(t2) {
            Err(self.conflict(t1, t2, reason))
        } else {
            let ghost before = *self;
            self.disequalities.push((t1, t2, reason));
            proof {
                let n = self.terms@.len();
                assert forall|k: int| 0 <= k < self.disequalities@.len() implies (#[trigger] self.disequalities@[k]).0 < n
                    && self.disequalities@[k].1 < n by {
                    if k < before.disequalities@.len() {
                        assert(self.disequalities@[k] == before.disequalities@[k]);
                    }
                }
                assert forall|k: int| 0 <= k < self.diseq_lim@.len() implies #[trigger] self.diseq_lim@[k]
                    <= self.disequalities@.len() by {
                    assert(self.diseq_lim@[k] <= before.disequalities@.len());
                }
                self.lemma_closure_frame(before);
                self.lemma_sound_frame(before);
            }
            Ok(true)
        }
    }

    /// Checks the recorded disequalities against the current classes:
    /// `Ok(false)` when none is violated, else the conflict clause of the
    /// first violated one.
    pub fn check_disequalities(&self) -> (r: Result<bool, Vec<Lit>>)
        requires
            self.wf(),
        ensures
            r is Ok <==> forall|k: int|
                0 <= k < self.diseqs().len() ==> self.root(#[trigger] self.diseqs()[k].0 as int) != self.root(
                    self.diseqs()[k].1 as int,
                ),
            r is Ok ==> r == Ok::<bool, Vec<Lit>>(false),
            r matches Err(c) ==> exists|k: int|
                0 <= k < self.diseqs().len() && self.root(#[trigger] self.diseqs()[k].0 as int) == self.root(
                    self.diseqs()[k].1 as int,
                ) && (forall|j: int|
                    0 <= j < k ==> self.root(#[trigger] self.diseqs()[j].0 as int) != self.root(self.diseqs()[j].1 as int))
                    && c.len() >= 1 && c@[0] == self.diseqs()[k].2.negated() && forall|i: int|
                    1 <= i < c.len() ==> self.is_reason(#[trigger] c@[i].negated()),
    {
        let mut k: usize = 0;
        while k < self.disequalities.len()
            invariant
                self.wf(),
                k <= self.disequalities.len(),
                forall|j: int|
                    0 <= j < k ==> self.root(#[trigger] self.diseqs()[j].0 as int) != self.root(self.diseqs()[j].1 as int),
            decreases self.disequalities.len() - k,
        {
            let (t1, t2, reason) = self.disequalities[k];
            if self.find(t1) == self.find(t2) {
                let c = self.conflict(t1, t2, reason);
                proof {
                    assert(self.diseqs()[k as int] == (t1, t2, reason));
                }
                return Err(c);
            }
            k += 1;
        }
        Ok(false)
    }

    /// A fresh variable term, its own class.
    pub fn new_var(&mut self) -> (r: usize)
        requires
            old(self).wf(),
            old(self).levels() == 0,
            old(self).num_terms() < usize::MAX,
        ensures
            final(self).wf(),
            r == old(self).num_terms(),
            final(self).num_terms() == old(self).num_terms() + 1,
            final(self).levels() == 0,
            final(self).func_ids() == old(self).func_ids(),
            !final(self).is_app(r as int),
            final(self).root(r as int) == r,
            forall|x: int| 0 <= x < old(self).num_terms() ==> #[trigger] final(self).root(x) == old(self).root(x),
            forall|x: int| 0 <= x < old(self).num_terms() ==> #[trigger] final(self).is_app(x) == old(self).is_app(x),
    {
        let id = self.terms.len();
        self.add_term_internal(Term::Var(id))
    }

    /// A fresh application of `func_id` to `args`; it joins the class of an
    /// existing application with the same symbol and argument classes once
    /// congruences are propagated.
    pub fn new_app(&mut self, func_id: usize, args: Vec<usize>) -> (r: usize)
        requires
            old(self).wf(),
            old(self).levels() == 0,
            old(self).num_terms() < usize::MAX,
            forall|i: int| 0 <= i < args.len() ==> args@[i] < old(self).num_terms(),
        ensures
            final(self).wf(),
            r == old(self).num_terms(),
            final(self).num_terms() == old(self).num_terms() + 1,
            final(self).levels() == 0,
            final(self).func_ids() == old(self).func_ids(),
            final(self).is_app(r as int),
            final(self).symbol(r as int) == func_id,
            final(self).args(r as int) == args@,
            final(self).root(r as int) == r,
            forall|x: int| 0 <= x < old(self).num_terms() ==> #[trigger] final(self).root(x) == old(self).root(x),
            forall|x: int| 0 <= x < old(self).num_terms() ==> #[trigger] final(self).is_app(x) == old(self).is_app(x),
            forall|x: int| 0 <= x < old(self).num_terms() ==> #[trigger] final(self).symbol(x) == old(self).symbol(x),
            forall|x: int| 0 <= x < old(self).num_terms() ==> #[trigger] final(self).args(x) == old(self).args(x),
    {
        self.add_term_internal(Term::App(func_id, args))
    }

    /// Two terms are congruent exactly when both are applications of the
    /// same symbol to arguments that are pairwise in the same class.
    pub proof fn lemma_congruent_args(self, u: int, v: int)
        requires
            self.wf(),
            0 <= u < self.num_terms(),
            0 <= v < self.num_terms(),
        ensures
            self.congruent(u, v) <==> {
                &&& self.is_app(u)
                &&& self.is_app(v)
                &&& self.symbol(u) == self.symbol(v)
                &&& self.args(u).len() == self.args(v).len()
                &&& forall|i: int| 0 <= i < self.args(u).len() ==> #[trigger] self.root(self.args(u)[i] as int) == self.root(self.args(v)[i] as int)
            },
    {
        if self.is_app(u) && self.is_app(v) {
            let au = self.args(u);
            let av = self.args(v);
            assert forall|i: int| 0 <= i < au.len() implies 0 <= #[trigger] self.root(au[i] as int) < self.num_terms() by {
                assert(self.terms@[u] is App);
                self.lemma_root_is_root(au[i] as int);
            }
            assert forall|i: int| 0 <= i < av.len() implies 0 <= #[trigger] self.root(av[i] as int) < self.num_terms() by {
                self.lemma_root_is_root(av[i] as int);
            }
            let ku = self.sig_key(u);
            let kv = self.sig_key(v);
            assert(ku.1.len() == au.len());
            assert(kv.1.len() == av.len());
            if self.congruent(u, v) {
                assert(au.len() == av.len());
                assert forall|i: int| 0 <= i < au.len() implies #[trigger] self.root(au[i] as int) == self.root(av[i] as int) by {
                    assert(0 <= self.root(au[i] as int) < self.num_terms());
                    assert(0 <= self.root(av[i] as int) < self.num_terms());
                    assert(self.arg_root(u, i) == self.root(au[i] as int));
                    assert(self.arg_root(v, i) == self.root(av[i] as int));
                    assert(ku.1[i] == kv.1[i]);
                    assert(ku.1[i] == self.arg_root(u, i) as usize);
                    assert(kv.1[i] == self.arg_root(v, i) as usize);
                }
            }
            if self.symbol(u) == self.symbol(v) && au.len() == av.len() && forall|i: int|
                0 <= i < au.len() ==> #[trigger] self.root(au[i] as int) == self.root(av[i] as int) {
                assert(ku.1 =~= kv.1);
            }
        }
    }

    /// Adding a term that is its own parent keeps every representative.
    proof fn lemma_root_extend(self, old: EufTheory, x: int)
        requires
            old.links_ok(),
            self.links_ok(),
            self.terms@.len() == old.terms@.len() + 1,
            self.parents@ == old.parents@.push(old.terms@.len() as usize),
            self.rank@ == old.rank@.push(0),
            self.rank_max == old.rank_max,
            0 <= x < old.num_terms(),
        ensures
            self.root(x) == old.root(x),
        decreases old.height(x),
    {
        if old.parents@[x] != x {
            self.lemma_root_extend(old, old.parents@[x] as int);
        }
    }
}

} // verus!
