use semitone::euf_theory::EufTheory;
use semitone::lit::Lit;

/// Terms created after a merge must register on the class root, not on the raw argument.
#[test]
fn term_created_after_merge_is_congruent() {
    let mut e = EufTheory::new();
    let f = e.new_func_id();
    let x = e.new_var();
    let y = e.new_var();
    let (w1, w2, w3) = (e.new_var(), e.new_var(), e.new_var());
    let fw = e.new_app(f, vec![w1]);
    e.merge(w1, w2, Some(Lit::new(1, false)));
    e.merge(w1, w3, Some(Lit::new(2, false)));
    e.merge(x, y, Some(Lit::new(3, false)));
    let fy = e.new_app(f, vec![y]);
    e.merge(x, w1, Some(Lit::new(4, false)));
    e.propagate_congruences();
    assert_eq!(e.find(fy), e.find(fw));
}

/// Congruences queued by term creation must survive a push/cancel_until(0) round trip.
#[test]
fn creation_time_congruence_survives_backtracking() {
    let mut e = EufTheory::new();
    let x = e.new_var();
    let h1 = e.new_app(7, vec![x]);
    let h2 = e.new_app(7, vec![x]);
    e.push();
    e.cancel_until(0);
    e.propagate_congruences();
    assert_eq!(e.find(h1), e.find(h2));
}

/// Shared sub-proofs must be explained once.
#[test]
fn explanation_is_linear_on_shared_subproofs() {
    let mut e = EufTheory::new();
    let f = e.new_func_id();
    let (mut a, mut b, mut c, mut d) = (e.new_var(), e.new_var(), e.new_var(), e.new_var());
    let (a0, b0, c0, d0) = (a, b, c, d);
    for _ in 0..200 {
        let (na, nb) = (e.new_app(f, vec![a, c]), e.new_app(f, vec![b, d]));
        let (nc, nd) = (e.new_app(f, vec![c, a]), e.new_app(f, vec![d, b]));
        (a, b, c, d) = (na, nb, nc, nd);
    }
    e.propagate_congruences();
    e.merge(a0, b0, Some(Lit::new(1, false)));
    e.merge(c0, d0, Some(Lit::new(2, false)));
    e.propagate_congruences();
    let mut lemma = Vec::new();
    e.explain(a, b, &mut lemma);
    assert_eq!(lemma.len(), 2);
}

struct Rng(u64);

impl Rng {
    fn below(&mut self, n: usize) -> usize {
        self.0 ^= self.0 << 13;
        self.0 ^= self.0 >> 7;
        self.0 ^= self.0 << 17;
        (self.0 % n as u64) as usize
    }
}

fn naive_find(p: &mut [usize], mut x: usize) -> usize {
    while p[x] != x {
        p[x] = p[p[x]];
        x = p[x];
    }
    x
}

fn naive_classes(terms: &[Option<(usize, Vec<usize>)>], eqs: &[(usize, usize)]) -> Vec<usize> {
    let mut p: Vec<usize> = (0..terms.len()).collect();
    for &(a, b) in eqs {
        let (ra, rb) = (naive_find(&mut p, a), naive_find(&mut p, b));
        p[ra] = rb;
    }
    loop {
        let mut changed = false;
        for i in 0..terms.len() {
            for j in i + 1..terms.len() {
                if let (Some((f, xs)), Some((g, ys))) = (&terms[i], &terms[j]) {
                    if f == g
                        && xs.len() == ys.len()
                        && naive_find(&mut p, i) != naive_find(&mut p, j)
                        && xs.iter().zip(ys).all(|(&x, &y)| naive_find(&mut p, x) == naive_find(&mut p, y))
                    {
                        let (ri, rj) = (naive_find(&mut p, i), naive_find(&mut p, j));
                        p[ri] = rj;
                        changed = true;
                    }
                }
            }
        }
        if !changed {
            break;
        }
    }
    (0..terms.len()).map(|i| naive_find(&mut p, i)).collect()
}

#[test]
fn fuzz_against_naive_closure() {
    for seed in 1..3000u64 {
        let mut rng = Rng(seed.wrapping_mul(0x9E37_79B9_7F4A_7C15) | 1);
        let mut e = EufTheory::new();
        let mut terms: Vec<Option<(usize, Vec<usize>)>> = Vec::new();
        for _ in 0..3 + rng.below(4) {
            e.new_var();
            terms.push(None);
        }
        for _ in 0..4 + rng.below(8) {
            let (f, arity) = (rng.below(3), 1 + rng.below(2));
            let args: Vec<usize> = (0..arity).map(|_| rng.below(terms.len())).collect();
            e.new_app(f, args.clone());
            terms.push(Some((f, args)));
        }
        e.propagate_congruences();

        let mut levels: Vec<Vec<(usize, usize)>> = vec![vec![]];
        let mut lit = 1;
        for step in 0..30 {
            match rng.below(10) {
                0..=5 => {
                    let (a, b) = (rng.below(terms.len()), rng.below(terms.len()));
                    e.merge(a, b, Some(Lit::new(lit, false)));
                    lit += 1;
                    e.propagate_congruences();
                    levels.last_mut().unwrap().push((a, b));
                }
                6..=7 if levels.len() < 5 => {
                    e.push();
                    levels.push(vec![]);
                }
                _ if levels.len() > 1 => {
                    let l = rng.below(levels.len() - 1);
                    e.cancel_until(l);
                    levels.truncate(l + 1);
                }
                _ => continue,
            }
            let eqs: Vec<_> = levels.iter().flatten().copied().collect();
            let oracle = naive_classes(&terms, &eqs);
            for i in 0..terms.len() {
                for j in 0..terms.len() {
                    assert_eq!(e.find(i) == e.find(j), oracle[i] == oracle[j], "seed {seed} step {step}: pair ({i},{j})");
                }
            }
        }
    }
}

#[test]
fn euf_merge_reports_whether_classes_joined() {
    let mut e = EufTheory::new();
    let a = e.new_var();
    let b = e.new_var();
    assert!(e.merge(a, b, Some(Lit::new(1, false))));
    assert!(!e.merge(b, a, Some(Lit::new(2, false))));
    assert_eq!(e.find(a), e.find(b));
}

#[test]
fn euf_disequality_conflict_negates_reasons() {
    let mut e = EufTheory::new();
    let a = e.new_var();
    let b = e.new_var();
    let c = e.new_var();
    assert_eq!(e.assert_disequality(a, c, Lit::new(9, true)), Ok(true));
    e.push();
    e.merge(a, b, Some(Lit::new(1, false)));
    assert_eq!(e.check_disequalities(), Ok(false));
    e.merge(b, c, Some(Lit::new(2, false)));
    let conflict = e.check_disequalities().unwrap_err();
    assert_eq!(conflict[0], Lit::new(9, false));
    let mut rest: Vec<Lit> = conflict[1..].to_vec();
    rest.sort();
    assert_eq!(rest, vec![Lit::new(1, true), Lit::new(2, true)]);
    let direct = e.assert_disequality(a, c, Lit::new(5, false)).unwrap_err();
    assert_eq!(direct[0], Lit::new(5, true));
    assert_eq!(direct.len(), 3);
}

#[test]
fn euf_cancel_until_restores_classes_and_disequalities() {
    let mut e = EufTheory::new();
    let a = e.new_var();
    let b = e.new_var();
    let c = e.new_var();
    e.merge(a, b, Some(Lit::new(1, false)));
    e.push();
    e.merge(b, c, Some(Lit::new(2, false)));
    assert_eq!(e.assert_disequality(a, b, Lit::new(3, false)).is_err(), true);
    assert_eq!(e.find(a), e.find(c));
    e.cancel_until(0);
    assert_eq!(e.find(a), e.find(b));
    assert_ne!(e.find(a), e.find(c));
    assert_eq!(e.check_disequalities(), Ok(false));
    e.cancel_until(3);
    assert_eq!(e.find(a), e.find(b));
}

#[test]
fn euf_congruence_is_explained_by_argument_equalities() {
    let mut e = EufTheory::new();
    let f = e.new_func_id();
    let g = e.new_func_id();
    let x = e.new_var();
    let y = e.new_var();
    let fx = e.new_app(f, vec![x]);
    let fy = e.new_app(f, vec![y]);
    let gx = e.new_app(g, vec![x]);
    e.merge(x, y, Some(Lit::new(4, true)));
    e.propagate_congruences();
    assert_eq!(e.find(fx), e.find(fy));
    assert_ne!(e.find(fx), e.find(gx));
    let mut why = vec![Lit::new(0, false)];
    e.explain(fx, fy, &mut why);
    assert_eq!(why, vec![Lit::new(0, false), Lit::new(4, true)]);
}
