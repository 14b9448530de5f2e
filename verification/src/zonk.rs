//! Zonking: replacing solved metavariables by their solutions throughout a
//! term, and finding the metavariables that remain unsolved.

use vstd::prelude::*;
use crate::ctx::ElabCtx;
use crate::ids::Unique;
use crate::meta::{lookup, MetaCtx};
use crate::occurs::{acyclic, lemma_contains_reaches, reaches};
use crate::term::{has_mvar, Term};
use crate::unify::{contains_unique, lemma_unseen_push, spec_contains_mvar, unseen};

verus! {

/// `t` with every metavariable solved in `sols` replaced by its zonked
/// solution; a metavariable on the path `seen` is left as it is.
pub open spec fn spec_zonk(sols: Seq<(Unique, Term)>, t: Term, seen: Seq<Unique>) -> Term
    decreases unseen(sols, seen), t,
{
    match t {
        Term::MVar(m) => if seen.contains(m) {
            t
        } else {
            match lookup(sols, m) {
                None => t,
                Some(v) => {
                    proof {
                        lemma_unseen_push(sols, seen, m);
                    }
                    spec_zonk(sols, v, seen.push(m))
                },
            }
        },
        Term::App(f, x) => Term::App(
            Box::new(spec_zonk(sols, *f, seen)),
            Box::new(spec_zonk(sols, *x, seen)),
        ),
        Term::Lam(i, a, b) => Term::Lam(
            i,
            Box::new(spec_zonk(sols, *a, seen)),
            Box::new(spec_zonk(sols, *b, seen)),
        ),
        Term::Pi(i, a, b) => Term::Pi(
            i,
            Box::new(spec_zonk(sols, *a, seen)),
            Box::new(spec_zonk(sols, *b, seen)),
        ),
        Term::Sigma(i, a, b) => Term::Sigma(
            i,
            Box::new(spec_zonk(sols, *a, seen)),
            Box::new(spec_zonk(sols, *b, seen)),
        ),
        Term::Let(a, v, b) => Term::Let(
            Box::new(spec_zonk(sols, *a, seen)),
            Box::new(spec_zonk(sols, *v, seen)),
            Box::new(spec_zonk(sols, *b, seen)),
        ),
        _ => t,
    }
}

/// Zonks `term`; `seen` holds the metavariables whose solutions are being
/// expanded, and is the same on return.
pub fn zonk_with_seen(mctx: &MetaCtx, term: &Term, seen: &mut Vec<Unique>) -> (r: Term)
    ensures
        r == spec_zonk(mctx.solutions(), *term, old(seen)@),
        final(seen)@ == old(seen)@,
    decreases unseen(mctx.solutions(), old(seen)@), term,
{
    match term {
        Term::MVar(m) => {
            if contains_unique(seen, *m) {
                return term.copy();
            }
            match mctx.get_solution(*m) {
                None => term.copy(),
                Some(v) => {
                    proof {
                        lemma_unseen_push(mctx.solutions(), seen@, *m);
                    }
                    seen.push(*m);
                    let r = zonk_with_seen(mctx, v, seen);
                    seen.pop();
                    r
                },
            }
        },
        Term::App(f, x) => {
            let f2 = zonk_with_seen(mctx, f, seen);
            let x2 = zonk_with_seen(mctx, x, seen);
            Term::App(Box::new(f2), Box::new(x2))
        },
        Term::Lam(i, a, b) => {
            let a2 = zonk_with_seen(mctx, a, seen);
            let b2 = zonk_with_seen(mctx, b, seen);
            Term::Lam(*i, Box::new(a2), Box::new(b2))
        },
        Term::Pi(i, a, b) => {
            let a2 = zonk_with_seen(mctx, a, seen);
            let b2 = zonk_with_seen(mctx, b, seen);
            Term::Pi(*i, Box::new(a2), Box::new(b2))
        },
        Term::Sigma(i, a, b) => {
            let a2 = zonk_with_seen(mctx, a, seen);
            let b2 = zonk_with_seen(mctx, b, seen);
            Term::Sigma(*i, Box::new(a2), Box::new(b2))
        },
        Term::Let(a, v, b) => {
            let a2 = zonk_with_seen(mctx, a, seen);
            let v2 = zonk_with_seen(mctx, v, seen);
            let b2 = zonk_with_seen(mctx, b, seen);
            Term::Let(Box::new(a2), Box::new(v2), Box::new(b2))
        },
        _ => term.copy(),
    }
}

/// The unsolved metavariables written in `t` that are not yet in `out`,
/// appended to `out` in the order they are first met.
pub open spec fn spec_collect_unsolved(
    sols: Seq<(Unique, Term)>,
    t: Term,
    out: Seq<Unique>,
) -> Seq<Unique>
    decreases t,
{
    match t {
        Term::MVar(u) => if lookup(sols, u) is None && !out.contains(u) {
            out.push(u)
        } else {
            out
        },
        Term::App(f, x) => spec_collect_unsolved(sols, *x, spec_collect_unsolved(sols, *f, out)),
        Term::Lam(_, a, b) | Term::Pi(_, a, b) | Term::Sigma(_, a, b) => spec_collect_unsolved(
            sols,
            *b,
            spec_collect_unsolved(sols, *a, out),
        ),
        Term::Let(a, v, b) => spec_collect_unsolved(
            sols,
            *b,
            spec_collect_unsolved(sols, *v, spec_collect_unsolved(sols, *a, out)),
        ),
        _ => out,
    }
}

/// Appends to `out` the unsolved metavariables of `term` it does not hold yet.
pub fn collect_unsolved(mctx: &MetaCtx, term: &Term, out: &mut Vec<Unique>)
    ensures
        final(out)@ == spec_collect_unsolved(mctx.solutions(), *term, old(out)@),
    decreases term,
{
    match term {
        Term::MVar(u) => {
            if !mctx.is_solved(*u) && !contains_unique(out, *u) {
                out.push(*u);
            }
        },
        Term::App(f, x) => {
            collect_unsolved(mctx, f, out);
            collect_unsolved(mctx, x, out);
        },
        Term::Lam(_, a, b) | Term::Pi(_, a, b) | Term::Sigma(_, a, b) => {
            collect_unsolved(mctx, a, out);
            collect_unsolved(mctx, b, out);
        },
        Term::Let(a, v, b) => {
            collect_unsolved(mctx, a, out);
            collect_unsolved(mctx, v, out);
            collect_unsolved(mctx, b, out);
        },
        _ => {},
    }
}

impl<'a> ElabCtx<'a> {
    /// `term` with all solved metavariables substituted; in a well-formed
    /// context no solved metavariable is left.
    pub fn zonk(&self, term: &Term) -> (r: Term)
        ensures
            r == spec_zonk(self.mctx.solutions(), *term, Seq::empty()),
            self.mctx.wf() ==> forall|n: Unique| #[trigger] has_mvar(r, n) ==> self.mctx.solution(n) is None,
    {
        let mut seen: Vec<Unique> = Vec::new();
        let r = zonk_with_seen(&self.mctx, term, &mut seen);
        proof {
            if self.mctx.wf() {
                assert forall|n: Unique| #[trigger] has_mvar(r, n) implies self.mctx.solution(n) is None by {
                    lemma_zonk_complete(self.mctx.solutions(), *term, n);
                }
            }
        }
        r
    }
}

// ---------------------------------------------------------------------------
// Laws.

/// A term with no metavariable is its own zonk.
pub proof fn lemma_zonk_no_mvars(sols: Seq<(Unique, Term)>, t: Term, seen: Seq<Unique>)
    requires
        forall|m: Unique| !has_mvar(t, m),
    ensures
        spec_zonk(sols, t, seen) == t,
    decreases t,
{
    match t {
        Term::MVar(m) => {
            assert(has_mvar(t, m));
        },
        Term::App(f, x) => {
            assert forall|m: Unique| !has_mvar(*f, m) && !has_mvar(*x, m) by {
                assert(!has_mvar(t, m));
            }
            lemma_zonk_no_mvars(sols, *f, seen);
            lemma_zonk_no_mvars(sols, *x, seen);
        },
        Term::Lam(_, a, b) | Term::Pi(_, a, b) | Term::Sigma(_, a, b) => {
            assert forall|m: Unique| !has_mvar(*a, m) && !has_mvar(*b, m) by {
                assert(!has_mvar(t, m));
            }
            lemma_zonk_no_mvars(sols, *a, seen);
            lemma_zonk_no_mvars(sols, *b, seen);
        },
        Term::Let(a, v, b) => {
            assert forall|m: Unique| !has_mvar(*a, m) && !has_mvar(*v, m) && !has_mvar(*b, m) by {
                assert(!has_mvar(t, m));
            }
            lemma_zonk_no_mvars(sols, *a, seen);
            lemma_zonk_no_mvars(sols, *v, seen);
            lemma_zonk_no_mvars(sols, *b, seen);
        },
        _ => {},
    }
}

/// With no solutions, zonking changes nothing.
pub proof fn lemma_zonk_unsolved(t: Term, seen: Seq<Unique>)
    ensures
        spec_zonk(Seq::empty(), t, seen) == t,
    decreases t,
{
    match t {
        Term::App(f, x) => {
            lemma_zonk_unsolved(*f, seen);
            lemma_zonk_unsolved(*x, seen);
        },
        Term::Lam(_, a, b) | Term::Pi(_, a, b) | Term::Sigma(_, a, b) => {
            lemma_zonk_unsolved(*a, seen);
            lemma_zonk_unsolved(*b, seen);
        },
        Term::Let(a, v, b) => {
            lemma_zonk_unsolved(*a, seen);
            lemma_zonk_unsolved(*v, seen);
            lemma_zonk_unsolved(*b, seen);
        },
        _ => {},
    }
}

/// What is collected: exactly what was there before and the unsolved
/// metavariables written in the term, each once.
pub proof fn lemma_collect_unsolved(sols: Seq<(Unique, Term)>, t: Term, out: Seq<Unique>, u: Unique)
    ensures
        spec_collect_unsolved(sols, t, out).contains(u) <==> (out.contains(u) || (has_mvar(t, u)
            && lookup(sols, u) is None)),
        out.no_duplicates() ==> spec_collect_unsolved(sols, t, out).no_duplicates(),
        out.is_prefix_of(spec_collect_unsolved(sols, t, out)),
    decreases t,
{
    match t {
        Term::MVar(m) => {
            if lookup(sols, m) is None && !out.contains(m) {
                let n = out.push(m);
                assert(n[out.len() as int] == m);
                assert(out.contains(u) ==> n.contains(u)) by {
                    if out.contains(u) {
                        let i = choose|i: int| 0 <= i < out.len() && out[i] == u;
                        assert(n[i] == u);
                    }
                }
                assert(n.contains(u) ==> out.contains(u) || u == m) by {
                    if n.contains(u) {
                        let i = choose|i: int| 0 <= i < n.len() && n[i] == u;
                        if i < out.len() {
                            assert(out[i] == u);
                        }
                    }
                }
                assert(out =~= n.subrange(0, out.len() as int));
            } else {
                assert(out =~= out.subrange(0, out.len() as int));
            }
        },
        Term::App(f, x) => {
            let o1 = spec_collect_unsolved(sols, *f, out);
            lemma_collect_unsolved(sols, *f, out, u);
            lemma_collect_unsolved(sols, *x, o1, u);
            lemma_prefix_trans(out, o1, spec_collect_unsolved(sols, *x, o1));
        },
        Term::Lam(_, a, b) | Term::Pi(_, a, b) | Term::Sigma(_, a, b) => {
            let o1 = spec_collect_unsolved(sols, *a, out);
            lemma_collect_unsolved(sols, *a, out, u);
            lemma_collect_unsolved(sols, *b, o1, u);
            lemma_prefix_trans(out, o1, spec_collect_unsolved(sols, *b, o1));
        },
        Term::Let(a, v, b) => {
            let o1 = spec_collect_unsolved(sols, *a, out);
            let o2 = spec_collect_unsolved(sols, *v, o1);
            lemma_collect_unsolved(sols, *a, out, u);
            lemma_collect_unsolved(sols, *v, o1, u);
            lemma_collect_unsolved(sols, *b, o2, u);
            lemma_prefix_trans(out, o1, o2);
            lemma_prefix_trans(out, o2, spec_collect_unsolved(sols, *b, o2));
        },
        _ => {
            assert(out =~= out.subrange(0, out.len() as int));
        },
    }
}

proof fn lemma_prefix_trans(a: Seq<Unique>, b: Seq<Unique>, c: Seq<Unique>)
    requires
        a.is_prefix_of(b),
        b.is_prefix_of(c),
    ensures
        a.is_prefix_of(c),
{
    assert forall|i: int| 0 <= i < a.len() implies #[trigger] c[i] == a[i] by {
        assert(a[i] == b.subrange(0, a.len() as int)[i]);
        assert(b[i] == c.subrange(0, b.len() as int)[i]);
    }
    assert(a =~= c.subrange(0, a.len() as int));
}


/// Reaching `needle` avoiding `big` still reaches it avoiding any part of it.
proof fn lemma_contains_fewer_seen(sols: Seq<(Unique, Term)>, needle: Unique, t: Term, big: Seq<Unique>, small: Seq<Unique>)
    requires
        spec_contains_mvar(sols, needle, t, big),
        forall|x: Unique| small.contains(x) ==> big.contains(x),
    ensures
        spec_contains_mvar(sols, needle, t, small),
    decreases unseen(sols, big), t,
{
    match t {
        Term::MVar(m) => {
            if m != needle {
                assert(!big.contains(m));
                assert(!small.contains(m));
                let v = lookup(sols, m).unwrap();
                lemma_unseen_push(sols, big, m);
                assert forall|x: Unique| small.push(m).contains(x) implies big.push(m).contains(x) by {
                    if x != m {
                        let i = choose|i: int| 0 <= i < small.push(m).len() && small.push(m)[i] == x;
                        assert(small[i] == x);
                        assert(small.contains(x));
                        let j = choose|j: int| 0 <= j < big.len() && big[j] == x;
                        assert(big.push(m)[j] == x);
                    } else {
                        assert(big.push(m)[big.len() as int] == m);
                    }
                }
                lemma_contains_fewer_seen(sols, needle, v, big.push(m), small.push(m));
            }
        },
        Term::App(f, x) => {
            if spec_contains_mvar(sols, needle, *f, big) {
                lemma_contains_fewer_seen(sols, needle, *f, big, small);
            } else {
                lemma_contains_fewer_seen(sols, needle, *x, big, small);
            }
        },
        Term::Lam(_, a, b) | Term::Pi(_, a, b) | Term::Sigma(_, a, b) => {
            if spec_contains_mvar(sols, needle, *a, big) {
                lemma_contains_fewer_seen(sols, needle, *a, big, small);
            } else {
                lemma_contains_fewer_seen(sols, needle, *b, big, small);
            }
        },
        Term::Let(a, v, b) => {
            if spec_contains_mvar(sols, needle, *a, big) {
                lemma_contains_fewer_seen(sols, needle, *a, big, small);
            } else if spec_contains_mvar(sols, needle, *v, big) {
                lemma_contains_fewer_seen(sols, needle, *v, big, small);
            } else {
                lemma_contains_fewer_seen(sols, needle, *b, big, small);
            }
        },
        _ => {},
    }
}

/// A solved metavariable left by zonking is reached from the term zonked.
proof fn lemma_zonk_left_reached(sols: Seq<(Unique, Term)>, t: Term, seen: Seq<Unique>, n: Unique)
    requires
        has_mvar(spec_zonk(sols, t, seen), n),
        lookup(sols, n) is Some,
    ensures
        spec_contains_mvar(sols, n, t, seen),
    decreases unseen(sols, seen), t,
{
    match t {
        Term::MVar(m) => {
            if m != n && !seen.contains(m) {
                let v = lookup(sols, m).unwrap();
                lemma_unseen_push(sols, seen, m);
                lemma_zonk_left_reached(sols, v, seen.push(m), n);
            }
        },
        Term::App(f, x) => {
            if has_mvar(spec_zonk(sols, *f, seen), n) {
                lemma_zonk_left_reached(sols, *f, seen, n);
            } else {
                lemma_zonk_left_reached(sols, *x, seen, n);
            }
        },
        Term::Lam(_, a, b) | Term::Pi(_, a, b) | Term::Sigma(_, a, b) => {
            if has_mvar(spec_zonk(sols, *a, seen), n) {
                lemma_zonk_left_reached(sols, *a, seen, n);
            } else {
                lemma_zonk_left_reached(sols, *b, seen, n);
            }
        },
        Term::Let(a, v, b) => {
            if has_mvar(spec_zonk(sols, *a, seen), n) {
                lemma_zonk_left_reached(sols, *a, seen, n);
            } else if has_mvar(spec_zonk(sols, *v, seen), n) {
                lemma_zonk_left_reached(sols, *v, seen, n);
            } else {
                lemma_zonk_left_reached(sols, *b, seen, n);
            }
        },
        _ => {},
    }
}

/// A solved metavariable left by zonking is on the path, or its solution
/// leads back to it.
proof fn lemma_zonk_left_cycle(sols: Seq<(Unique, Term)>, t: Term, seen: Seq<Unique>, n: Unique)
    requires
        has_mvar(spec_zonk(sols, t, seen), n),
        lookup(sols, n) is Some,
    ensures
        seen.contains(n) || spec_contains_mvar(sols, n, lookup(sols, n).unwrap(), Seq::empty()),
    decreases unseen(sols, seen), t,
{
    match t {
        Term::MVar(m) => {
            if !seen.contains(m) {
                let v = lookup(sols, m).unwrap();
                lemma_unseen_push(sols, seen, m);
                lemma_zonk_left_cycle(sols, v, seen.push(m), n);
                if n == m {
                    lemma_zonk_left_reached(sols, v, seen.push(m), n);
                    lemma_contains_fewer_seen(sols, n, v, seen.push(m), Seq::empty());
                } else if seen.push(m).contains(n) {
                    let i = choose|i: int| 0 <= i < seen.push(m).len() && seen.push(m)[i] == n;
                    assert(seen[i] == n);
                }
            }
        },
        Term::App(f, x) => {
            if has_mvar(spec_zonk(sols, *f, seen), n) {
                lemma_zonk_left_cycle(sols, *f, seen, n);
            } else {
                lemma_zonk_left_cycle(sols, *x, seen, n);
            }
        },
        Term::Lam(_, a, b) | Term::Pi(_, a, b) | Term::Sigma(_, a, b) => {
            if has_mvar(spec_zonk(sols, *a, seen), n) {
                lemma_zonk_left_cycle(sols, *a, seen, n);
            } else {
                lemma_zonk_left_cycle(sols, *b, seen, n);
            }
        },
        Term::Let(a, v, b) => {
            if has_mvar(spec_zonk(sols, *a, seen), n) {
                lemma_zonk_left_cycle(sols, *a, seen, n);
            } else if has_mvar(spec_zonk(sols, *v, seen), n) {
                lemma_zonk_left_cycle(sols, *v, seen, n);
            } else {
                lemma_zonk_left_cycle(sols, *b, seen, n);
            }
        },
        _ => {},
    }
}

/// Zonking under solutions none of which leads back to its own
/// metavariable leaves no solved metavariable in the term.
pub proof fn lemma_zonk_complete(sols: Seq<(Unique, Term)>, t: Term, n: Unique)
    requires
        acyclic(sols),
    ensures
        has_mvar(spec_zonk(sols, t, Seq::empty()), n) ==> lookup(sols, n) is None,
{
    if has_mvar(spec_zonk(sols, t, Seq::empty()), n) && lookup(sols, n) is Some {
        lemma_zonk_left_cycle(sols, t, Seq::empty(), n);
        let k = lemma_contains_reaches(sols, n, lookup(sols, n).unwrap(), Seq::empty());
        assert(!reaches(sols, n, lookup(sols, n).unwrap(), k));
    }
}

/// A term in which every metavariable is unsolved is its own zonk.
pub proof fn lemma_zonk_unsolved_only(sols: Seq<(Unique, Term)>, t: Term, seen: Seq<Unique>)
    requires
        forall|m: Unique| #[trigger] has_mvar(t, m) ==> lookup(sols, m) is None,
    ensures
        spec_zonk(sols, t, seen) == t,
    decreases t,
{
    match t {
        Term::MVar(m) => {
            assert(has_mvar(t, m));
        },
        Term::App(f, x) => {
            assert forall|m: Unique| #[trigger] has_mvar(*f, m) implies lookup(sols, m) is None by {
                assert(has_mvar(t, m));
            }
            assert forall|m: Unique| #[trigger] has_mvar(*x, m) implies lookup(sols, m) is None by {
                assert(has_mvar(t, m));
            }
            lemma_zonk_unsolved_only(sols, *f, seen);
            lemma_zonk_unsolved_only(sols, *x, seen);
        },
        Term::Lam(_, a, b) | Term::Pi(_, a, b) | Term::Sigma(_, a, b) => {
            assert forall|m: Unique| #[trigger] has_mvar(*a, m) implies lookup(sols, m) is None by {
                assert(has_mvar(t, m));
            }
            assert forall|m: Unique| #[trigger] has_mvar(*b, m) implies lookup(sols, m) is None by {
                assert(has_mvar(t, m));
            }
            lemma_zonk_unsolved_only(sols, *a, seen);
            lemma_zonk_unsolved_only(sols, *b, seen);
        },
        Term::Let(a, v, b) => {
            assert forall|m: Unique| #[trigger] has_mvar(*a, m) implies lookup(sols, m) is None by {
                assert(has_mvar(t, m));
            }
            assert forall|m: Unique| #[trigger] has_mvar(*v, m) implies lookup(sols, m) is None by {
                assert(has_mvar(t, m));
            }
            assert forall|m: Unique| #[trigger] has_mvar(*b, m) implies lookup(sols, m) is None by {
                assert(has_mvar(t, m));
            }
            lemma_zonk_unsolved_only(sols, *a, seen);
            lemma_zonk_unsolved_only(sols, *v, seen);
            lemma_zonk_unsolved_only(sols, *b, seen);
        },
        _ => {},
    }
}

/// Zonking twice under acyclic solutions is zonking once.
pub proof fn lemma_zonk_idempotent(sols: Seq<(Unique, Term)>, t: Term)
    requires
        acyclic(sols),
    ensures
        spec_zonk(sols, spec_zonk(sols, t, Seq::empty()), Seq::empty()) == spec_zonk(sols, t, Seq::empty()),
{
    let z = spec_zonk(sols, t, Seq::empty());
    assert forall|m: Unique| #[trigger] has_mvar(z, m) implies lookup(sols, m) is None by {
        lemma_zonk_complete(sols, t, m);
    }
    lemma_zonk_unsolved_only(sols, z, Seq::empty());
}

} // verus!
