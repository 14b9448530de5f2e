//! Which metavariables a term reaches through the recorded solutions, and the
//! acyclicity of the solutions that the occurs check of unification keeps.

use vstd::prelude::*;
use crate::ids::Unique;
use crate::meta::{lemma_lookup_push, lookup};
use crate::term::Term;
use crate::unify::spec_contains_mvar;

verus! {

/// `x` is met in `t` after expanding at most `k` solutions along the way.
pub open spec fn reaches(sols: Seq<(Unique, Term)>, x: Unique, t: Term, k: nat) -> bool
    decreases k, t,
{
    match t {
        Term::MVar(m) => m == x || (k > 0 && match lookup(sols, m) {
            Some(v) => reaches(sols, x, v, (k - 1) as nat),
            None => false,
        }),
        Term::App(f, a) => reaches(sols, x, *f, k) || reaches(sols, x, *a, k),
        Term::Lam(_, a, b) | Term::Pi(_, a, b) | Term::Sigma(_, a, b) => reaches(sols, x, *a, k)
            || reaches(sols, x, *b, k),
        Term::Let(a, v, b) => reaches(sols, x, *a, k) || reaches(sols, x, *v, k) || reaches(
            sols,
            x,
            *b,
            k,
        ),
        _ => false,
    }
}

/// No solution leads back, through any chain of solutions, to its own
/// metavariable.
pub open spec fn acyclic(sols: Seq<(Unique, Term)>) -> bool {
    forall|n: Unique, k: nat| #[trigger]
        lookup(sols, n) is Some ==> !#[trigger] reaches(sols, n, lookup(sols, n).unwrap(), k)
}

/// With no solution there is no cycle.
pub proof fn lemma_acyclic_empty()
    ensures
        acyclic(Seq::<(Unique, Term)>::empty()),
{
}

/// More expansions reach at least as much.
pub proof fn lemma_reaches_mono(sols: Seq<(Unique, Term)>, x: Unique, t: Term, k: nat, k2: nat)
    requires
        reaches(sols, x, t, k),
        k <= k2,
    ensures
        reaches(sols, x, t, k2),
    decreases k, t,
{
    match t {
        Term::MVar(m) => {
            if m != x {
                let v = lookup(sols, m).unwrap();
                lemma_reaches_mono(sols, x, v, (k - 1) as nat, (k2 - 1) as nat);
            }
        },
        Term::App(f, a) => {
            if reaches(sols, x, *f, k) {
                lemma_reaches_mono(sols, x, *f, k, k2);
            } else {
                lemma_reaches_mono(sols, x, *a, k, k2);
            }
        },
        Term::Lam(_, a, b) | Term::Pi(_, a, b) | Term::Sigma(_, a, b) => {
            if reaches(sols, x, *a, k) {
                lemma_reaches_mono(sols, x, *a, k, k2);
            } else {
                lemma_reaches_mono(sols, x, *b, k, k2);
            }
        },
        Term::Let(a, v, b) => {
            if reaches(sols, x, *a, k) {
                lemma_reaches_mono(sols, x, *a, k, k2);
            } else if reaches(sols, x, *v, k) {
                lemma_reaches_mono(sols, x, *v, k, k2);
            } else {
                lemma_reaches_mono(sols, x, *b, k, k2);
            }
        },
        _ => {},
    }
}

/// What the occurs check finds is reached within some number of expansions.
pub proof fn lemma_contains_reaches(sols: Seq<(Unique, Term)>, x: Unique, t: Term, seen: Seq<Unique>) -> (k: nat)
    requires
        spec_contains_mvar(sols, x, t, seen),
    ensures
        reaches(sols, x, t, k),
    decreases crate::unify::unseen(sols, seen), t,
{
    match t {
        Term::MVar(m) => {
            if m == x {
                0
            } else {
                let v = lookup(sols, m).unwrap();
                crate::unify::lemma_unseen_push(sols, seen, m);
                let k = lemma_contains_reaches(sols, x, v, seen.push(m));
                k + 1
            }
        },
        Term::App(f, a) => {
            if spec_contains_mvar(sols, x, *f, seen) {
                lemma_contains_reaches(sols, x, *f, seen)
            } else {
                lemma_contains_reaches(sols, x, *a, seen)
            }
        },
        Term::Lam(_, a, b) | Term::Pi(_, a, b) | Term::Sigma(_, a, b) => {
            if spec_contains_mvar(sols, x, *a, seen) {
                lemma_contains_reaches(sols, x, *a, seen)
            } else {
                lemma_contains_reaches(sols, x, *b, seen)
            }
        },
        Term::Let(a, v, b) => {
            if spec_contains_mvar(sols, x, *a, seen) {
                lemma_contains_reaches(sols, x, *a, seen)
            } else if spec_contains_mvar(sols, x, *v, seen) {
                lemma_contains_reaches(sols, x, *v, seen)
            } else {
                lemma_contains_reaches(sols, x, *b, seen)
            }
        },
        _ => 0,
    }
}

/// Under acyclic solutions, what is reached is found by the occurs check
/// started from `seen`, unless the term reaches a metavariable of `seen`.
proof fn lemma_reaches_contains_seen(
    sols: Seq<(Unique, Term)>,
    x: Unique,
    t: Term,
    seen: Seq<Unique>,
    k: nat,
)
    requires
        acyclic(sols),
        reaches(sols, x, t, k),
    ensures
        spec_contains_mvar(sols, x, t, seen) || exists|m: Unique|
            seen.contains(m) && #[trigger] reaches(sols, m, t, k),
    decreases k, t,
{
    match t {
        Term::MVar(m) => {
            if m != x {
                let v = lookup(sols, m).unwrap();
                if seen.contains(m) {
                    assert(reaches(sols, m, t, k));
                } else {
                    crate::unify::lemma_unseen_push(sols, seen, m);
                    lemma_reaches_contains_seen(sols, x, v, seen.push(m), (k - 1) as nat);
                    if !spec_contains_mvar(sols, x, v, seen.push(m)) {
                        let m2 = choose|m2: Unique|
                            seen.push(m).contains(m2) && #[trigger] reaches(sols, m2, v, (k - 1) as nat);
                        if m2 == m {
                            assert(!reaches(sols, m, lookup(sols, m).unwrap(), (k - 1) as nat));
                        } else {
                            let i = choose|i: int| 0 <= i < seen.push(m).len() && seen.push(m)[i] == m2;
                            assert(seen[i] == m2);
                            assert(reaches(sols, m2, t, k));
                        }
                    }
                }
            }
        },
        Term::App(f, a) => {
            if reaches(sols, x, *f, k) {
                lemma_reaches_contains_seen(sols, x, *f, seen, k);
                if !spec_contains_mvar(sols, x, *f, seen) {
                    let m2 = choose|m2: Unique| seen.contains(m2) && #[trigger] reaches(sols, m2, *f, k);
                    assert(reaches(sols, m2, t, k));
                }
            } else {
                lemma_reaches_contains_seen(sols, x, *a, seen, k);
                if !spec_contains_mvar(sols, x, *a, seen) {
                    let m2 = choose|m2: Unique| seen.contains(m2) && #[trigger] reaches(sols, m2, *a, k);
                    assert(reaches(sols, m2, t, k));
                }
            }
        },
        Term::Lam(_, a, b) | Term::Pi(_, a, b) | Term::Sigma(_, a, b) => {
            if reaches(sols, x, *a, k) {
                lemma_reaches_contains_seen(sols, x, *a, seen, k);
                if !spec_contains_mvar(sols, x, *a, seen) {
                    let m2 = choose|m2: Unique| seen.contains(m2) && #[trigger] reaches(sols, m2, *a, k);
                    assert(reaches(sols, m2, t, k));
                }
            } else {
                lemma_reaches_contains_seen(sols, x, *b, seen, k);
                if !spec_contains_mvar(sols, x, *b, seen) {
                    let m2 = choose|m2: Unique| seen.contains(m2) && #[trigger] reaches(sols, m2, *b, k);
                    assert(reaches(sols, m2, t, k));
                }
            }
        },
        Term::Let(a, v, b) => {
            if reaches(sols, x, *a, k) {
                lemma_reaches_contains_seen(sols, x, *a, seen, k);
                if !spec_contains_mvar(sols, x, *a, seen) {
                    let m2 = choose|m2: Unique| seen.contains(m2) && #[trigger] reaches(sols, m2, *a, k);
                    assert(reaches(sols, m2, t, k));
                }
            } else if reaches(sols, x, *v, k) {
                lemma_reaches_contains_seen(sols, x, *v, seen, k);
                if !spec_contains_mvar(sols, x, *v, seen) {
                    let m2 = choose|m2: Unique| seen.contains(m2) && #[trigger] reaches(sols, m2, *v, k);
                    assert(reaches(sols, m2, t, k));
                }
            } else {
                lemma_reaches_contains_seen(sols, x, *b, seen, k);
                if !spec_contains_mvar(sols, x, *b, seen) {
                    let m2 = choose|m2: Unique| seen.contains(m2) && #[trigger] reaches(sols, m2, *b, k);
                    assert(reaches(sols, m2, t, k));
                }
            }
        },
        _ => {},
    }
}

/// Under acyclic solutions the occurs check finds everything that is reached.
pub proof fn lemma_reaches_contains(sols: Seq<(Unique, Term)>, x: Unique, t: Term, k: nat)
    requires
        acyclic(sols),
        reaches(sols, x, t, k),
    ensures
        spec_contains_mvar(sols, x, t, Seq::empty()),
{
    lemma_reaches_contains_seen(sols, x, t, Seq::empty(), k);
}

/// A term that reaches `n` reaches whatever the solution of `n` reaches.
proof fn lemma_reaches_trans(
    sols: Seq<(Unique, Term)>,
    n: Unique,
    w: Term,
    y: Unique,
    t: Term,
    k1: nat,
    k2: nat,
)
    requires
        reaches(sols, n, t, k1),
        lookup(sols, n) == Some(w),
        reaches(sols, y, w, k2),
    ensures
        reaches(sols, y, t, k1 + k2 + 1),
    decreases k1, t,
{
    match t {
        Term::MVar(m) => {
            if m == n {
                assert(reaches(sols, y, t, k2 + 1));
                lemma_reaches_mono(sols, y, t, k2 + 1, k1 + k2 + 1);
            } else {
                let v = lookup(sols, m).unwrap();
                lemma_reaches_trans(sols, n, w, y, v, (k1 - 1) as nat, k2);
                assert((k1 - 1) as nat + k2 + 1 == (k1 + k2 + 1 - 1) as nat);
            }
        },
        Term::App(f, a) => {
            if reaches(sols, n, *f, k1) {
                lemma_reaches_trans(sols, n, w, y, *f, k1, k2);
            } else {
                lemma_reaches_trans(sols, n, w, y, *a, k1, k2);
            }
        },
        Term::Lam(_, a, b) | Term::Pi(_, a, b) | Term::Sigma(_, a, b) => {
            if reaches(sols, n, *a, k1) {
                lemma_reaches_trans(sols, n, w, y, *a, k1, k2);
            } else {
                lemma_reaches_trans(sols, n, w, y, *b, k1, k2);
            }
        },
        Term::Let(a, v, b) => {
            if reaches(sols, n, *a, k1) {
                lemma_reaches_trans(sols, n, w, y, *a, k1, k2);
            } else if reaches(sols, n, *v, k1) {
                lemma_reaches_trans(sols, n, w, y, *v, k1, k2);
            } else {
                lemma_reaches_trans(sols, n, w, y, *b, k1, k2);
            }
        },
        _ => {},
    }
}

/// After solving `meta` with `v`, a term reaches `x` as before, or it
/// reached `meta` and `v` reaches `x`.
proof fn lemma_reaches_push(
    sols: Seq<(Unique, Term)>,
    meta: Unique,
    v: Term,
    x: Unique,
    t: Term,
    k: nat,
)
    requires
        lookup(sols, meta) is None,
        reaches(sols.push((meta, v)), x, t, k),
    ensures
        reaches(sols, x, t, k) || (k > 0 && reaches(sols, meta, t, k) && reaches(
            sols.push((meta, v)),
            x,
            v,
            (k - 1) as nat,
        )),
    decreases k, t,
{
    let new = sols.push((meta, v));
    match t {
        Term::MVar(m) => {
            if m != x {
                lemma_lookup_push(sols, meta, v, m);
                if m != meta {
                    let w = lookup(sols, m).unwrap();
                    lemma_reaches_push(sols, meta, v, x, w, (k - 1) as nat);
                    if !reaches(sols, x, w, (k - 1) as nat) {
                        lemma_reaches_mono(new, x, v, (k - 2) as nat, (k - 1) as nat);
                    }
                }
            }
        },
        Term::App(f, a) => {
            if reaches(new, x, *f, k) {
                lemma_reaches_push(sols, meta, v, x, *f, k);
            } else {
                lemma_reaches_push(sols, meta, v, x, *a, k);
            }
        },
        Term::Lam(_, a, b) | Term::Pi(_, a, b) | Term::Sigma(_, a, b) => {
            if reaches(new, x, *a, k) {
                lemma_reaches_push(sols, meta, v, x, *a, k);
            } else {
                lemma_reaches_push(sols, meta, v, x, *b, k);
            }
        },
        Term::Let(a, w, b) => {
            if reaches(new, x, *a, k) {
                lemma_reaches_push(sols, meta, v, x, *a, k);
            } else if reaches(new, x, *w, k) {
                lemma_reaches_push(sols, meta, v, x, *w, k);
            } else {
                lemma_reaches_push(sols, meta, v, x, *b, k);
            }
        },
        _ => {},
    }
}

/// Solving an unsolved metavariable with a value in which the occurs check
/// does not find it keeps the solutions acyclic.
pub proof fn lemma_acyclic_push(sols: Seq<(Unique, Term)>, meta: Unique, v: Term)
    requires
        acyclic(sols),
        lookup(sols, meta) is None,
        !spec_contains_mvar(sols, meta, v, Seq::empty()),
    ensures
        acyclic(sols.push((meta, v))),
{
    let new = sols.push((meta, v));
    assert forall|j: nat| !#[trigger] reaches(sols, meta, v, j) by {
        if reaches(sols, meta, v, j) {
            lemma_reaches_contains(sols, meta, v, j);
        }
    }
    assert forall|n: Unique, k: nat| #[trigger]
        lookup(new, n) is Some implies !#[trigger] reaches(new, n, lookup(new, n).unwrap(), k) by {
        lemma_lookup_push(sols, meta, v, n);
        let w = lookup(new, n).unwrap();
        if reaches(new, n, w, k) {
            lemma_reaches_push(sols, meta, v, n, w, k);
            if n == meta {
                assert(reaches(sols, meta, v, k));
            } else {
                assert(lookup(sols, n) == Some(w));
                assert(!reaches(sols, n, w, k));
                lemma_reaches_push(sols, meta, v, n, v, (k - 1) as nat);
                assert(!reaches(sols, meta, v, (k - 1) as nat));
                lemma_reaches_trans(sols, n, w, meta, v, (k - 1) as nat, k);
                assert(!reaches(sols, meta, v, (k - 1) as nat + k + 1));
            }
        }
    }
}

} // verus!
