//! Unification: deciding definitional equality of two terms up to weak head
//! reduction, solving metavariables on the way.

use vstd::prelude::*;
use crate::ctx::ElabCtx;
use crate::env::Env;
use crate::ids::Unique;
use crate::local::LocalBinder;
use crate::occurs::{acyclic, lemma_acyclic_push};
use crate::meta::{find_meta, keys_distinct, lemma_find_meta_facts, lemma_lookup_facts, lookup, MetaCtx, MetaView};
use crate::reduce::{spec_whnf, whnf_with_mvars};
use crate::term::{has_mvar, lemma_term_same_refl, term_eq, term_same, Term};

verus! {

/// Why two terms could not be unified.
#[derive(Debug)]
pub enum UnifyError {
    /// The heads differ.
    Mismatch { a: Term, b: Term },
    /// Solving `meta` with `value` would make it contain itself.
    Occurs { meta: Term, value: Term },
    /// `value` mentions locals that are not in scope where `meta` was created.
    Escaping { meta: Term, value: Term },
    /// `a` and `b` differ because some of their parts differ.
    Below { a: Term, b: Term, cause: Box<UnifyError> },
    /// The reduction budget ran out while comparing `a` and `b`.
    Exhausted { a: Term, b: Term },
}

impl UnifyError {
    /// The innermost pair of terms that disagree.
    pub open spec fn spec_root(self) -> (Term, Term)
        decreases self,
    {
        match self {
            UnifyError::Mismatch { a, b } => (a, b),
            UnifyError::Occurs { meta, value } => (meta, value),
            UnifyError::Escaping { meta, value } => (meta, value),
            UnifyError::Below { cause, .. } => (*cause).spec_root(),
            UnifyError::Exhausted { a, b } => (a, b),
        }
    }

    /// The innermost pair of terms that disagree.
    pub fn root(&self) -> (r: (Term, Term))
        ensures
            r == self.spec_root(),
        decreases self,
    {
        match self {
            UnifyError::Mismatch { a, b } => (a.copy(), b.copy()),
            UnifyError::Occurs { meta, value } => (meta.copy(), value.copy()),
            UnifyError::Escaping { meta, value } => (meta.copy(), value.copy()),
            UnifyError::Below { cause, .. } => cause.root(),
            UnifyError::Exhausted { a, b } => (a.copy(), b.copy()),
        }
    }
}

/// Number of solution entries whose metavariable is not in `seen`.
pub open spec fn unseen(sols: Seq<(Unique, Term)>, seen: Seq<Unique>) -> nat
    decreases sols.len(),
{
    if sols.len() == 0 {
        0
    } else {
        unseen(sols.drop_first(), seen) + if seen.contains(sols[0].0) {
            0nat
        } else {
            1nat
        }
    }
}

pub proof fn lemma_unseen_push(sols: Seq<(Unique, Term)>, seen: Seq<Unique>, m: Unique)
    ensures
        unseen(sols, seen.push(m)) <= unseen(sols, seen),
        !seen.contains(m) && lookup(sols, m) is Some ==> unseen(sols, seen.push(m)) < unseen(
            sols,
            seen,
        ),
    decreases sols.len(),
{
    if sols.len() > 0 {
        lemma_unseen_push(sols.drop_first(), seen, m);
        assert(seen.push(m).contains(sols[0].0) <== seen.contains(sols[0].0)) by {
            if seen.contains(sols[0].0) {
                let i = choose|i: int| 0 <= i < seen.len() && seen[i] == sols[0].0;
                assert(seen.push(m)[i] == sols[0].0);
            }
        }
        if sols[0].0 == m {
            assert(seen.push(m)[seen.len() as int] == m);
        }
    }
}

/// `needle` occurs in `t`, following solutions of metavariables not on the path `seen`.
pub open spec fn spec_contains_mvar(
    sols: Seq<(Unique, Term)>,
    needle: Unique,
    t: Term,
    seen: Seq<Unique>,
) -> bool
    decreases unseen(sols, seen), t,
{
    match t {
        Term::MVar(m) => if m == needle {
            true
        } else if seen.contains(m) {
            false
        } else {
            match lookup(sols, m) {
                Some(v) => {
                    proof {
                        lemma_unseen_push(sols, seen, m);
                    }
                    spec_contains_mvar(sols, needle, v, seen.push(m))
                },
                None => false,
            }
        },
        Term::App(f, x) => spec_contains_mvar(sols, needle, *f, seen) || spec_contains_mvar(
            sols,
            needle,
            *x,
            seen,
        ),
        Term::Lam(_, a, b) | Term::Pi(_, a, b) | Term::Sigma(_, a, b) => spec_contains_mvar(
            sols,
            needle,
            *a,
            seen,
        ) || spec_contains_mvar(sols, needle, *b, seen),
        Term::Let(a, v, b) => spec_contains_mvar(sols, needle, *a, seen) || spec_contains_mvar(
            sols,
            needle,
            *v,
            seen,
        ) || spec_contains_mvar(sols, needle, *b, seen),
        _ => false,
    }
}

/// Every local of the scope of metavariable `m` is in `allowed`.
pub open spec fn spec_meta_context_fits(metas: Seq<MetaView>, m: Unique, allowed: Seq<Unique>) -> bool {
    match find_meta(metas, m) {
        None => false,
        Some(i) => forall|j: int|
            0 <= j < metas[i].2.len() ==> allowed.contains(#[trigger] metas[i].2[j].unique),
    }
}

/// One binder deeper; the count stops at `usize::MAX`, where every index of a
/// `BVar` is already below it.
pub open spec fn deeper(depth: nat) -> nat {
    if depth < usize::MAX {
        depth + 1
    } else {
        depth
    }
}

/// `t`, under `depth` binders, mentions only locals of `allowed` and bound variables it binds.
pub open spec fn spec_term_fits_scope(
    metas: Seq<MetaView>,
    sols: Seq<(Unique, Term)>,
    t: Term,
    allowed: Seq<Unique>,
    depth: nat,
    seen: Seq<Unique>,
) -> bool
    decreases unseen(sols, seen), t,
{
    match t {
        Term::BVar(i) => i < depth,
        Term::FVar(u) => allowed.contains(u),
        Term::MVar(m) => match lookup(sols, m) {
            Some(v) => if seen.contains(m) {
                true
            } else {
                proof {
                    lemma_unseen_push(sols, seen, m);
                }
                spec_term_fits_scope(metas, sols, v, allowed, depth, seen.push(m))
            },
            None => spec_meta_context_fits(metas, m, allowed),
        },
        Term::App(f, x) => spec_term_fits_scope(metas, sols, *f, allowed, depth, seen)
            && spec_term_fits_scope(metas, sols, *x, allowed, depth, seen),
        Term::Lam(_, a, b) | Term::Pi(_, a, b) | Term::Sigma(_, a, b) => spec_term_fits_scope(
            metas,
            sols,
            *a,
            allowed,
            depth,
            seen,
        ) && spec_term_fits_scope(metas, sols, *b, allowed, deeper(depth), seen),
        Term::Let(a, v, b) => spec_term_fits_scope(metas, sols, *a, allowed, depth, seen)
            && spec_term_fits_scope(metas, sols, *v, allowed, depth, seen) && spec_term_fits_scope(
            metas,
            sols,
            *b,
            allowed,
            deeper(depth),
            seen,
        ),
        _ => true,
    }
}

/// The locals of the scope of metavariable `m`.
pub open spec fn meta_scope(metas: Seq<MetaView>, m: Unique) -> Seq<Unique> {
    match find_meta(metas, m) {
        None => Seq::empty(),
        Some(i) => metas[i].2.map_values(|b: LocalBinder| b.unique),
    }
}

/// `value` may be the solution of `m`: it mentions only locals in scope where `m` was made.
pub open spec fn spec_fits_meta_scope(
    metas: Seq<MetaView>,
    sols: Seq<(Unique, Term)>,
    m: Unique,
    value: Term,
) -> bool {
    find_meta(metas, m) is Some && spec_term_fits_scope(
        metas,
        sols,
        value,
        meta_scope(metas, m),
        0,
        Seq::empty(),
    )
}

/// Outcome of unifying `a` with `b` under solutions `sols` within `fuel`: the
/// result and the solutions afterwards.
pub open spec fn spec_eq_term(
    bodies: Seq<Option<Term>>,
    metas: Seq<MetaView>,
    sols: Seq<(Unique, Term)>,
    a: Term,
    b: Term,
    fuel: nat,
) -> (Result<(), UnifyError>, Seq<(Unique, Term)>)
    decreases fuel, 2nat,
{
    if fuel == 0 {
        (Err(UnifyError::Exhausted { a, b }), sols)
    } else {
        match (spec_whnf(bodies, sols, a, fuel), spec_whnf(bodies, sols, b, fuel)) {
            (Some(wa), Some(wb)) => if term_same(wa, wb) {
                (Ok(()), sols)
            } else {
                spec_eq_whnf(bodies, metas, sols, wa, wb, fuel)
            },
            _ => (Err(UnifyError::Exhausted { a, b }), sols),
        }
    }
}

/// Wraps the failure of a part of `a` and `b` as a failure of the whole.
pub open spec fn below(
    r: (Result<(), UnifyError>, Seq<(Unique, Term)>),
    a: Term,
    b: Term,
) -> (Result<(), UnifyError>, Seq<(Unique, Term)>) {
    match r.0 {
        Ok(()) => (Ok(()), r.1),
        Err(c) => (Err(UnifyError::Below { a, b, cause: Box::new(c) }), r.1),
    }
}

/// Unification of two terms already in weak head normal form that are not the same.
pub open spec fn spec_eq_whnf(
    bodies: Seq<Option<Term>>,
    metas: Seq<MetaView>,
    sols: Seq<(Unique, Term)>,
    a: Term,
    b: Term,
    fuel: nat,
) -> (Result<(), UnifyError>, Seq<(Unique, Term)>)
    decreases fuel, 1nat,
{
    if fuel == 0 {
        (Err(UnifyError::Exhausted { a, b }), sols)
    } else {
        let f = (fuel - 1) as nat;
        match (a, b) {
            (Term::MVar(u), _) => spec_solve_mvar(bodies, metas, sols, u, b, fuel),
            (_, Term::MVar(v)) => spec_solve_mvar(bodies, metas, sols, v, a, fuel),
            (Term::App(f1, x1), Term::App(f2, x2)) => {
                let r1 = spec_eq_term(bodies, metas, sols, *f1, *f2, f);
                if r1.0 is Err {
                    below(r1, a, b)
                } else {
                    below(spec_eq_term(bodies, metas, r1.1, *x1, *x2, f), a, b)
                }
            },
            (Term::Lam(_, t1, b1), Term::Lam(_, t2, b2)) => {
                let r1 = spec_eq_term(bodies, metas, sols, *t1, *t2, f);
                if r1.0 is Err {
                    below(r1, a, b)
                } else {
                    below(spec_eq_term(bodies, metas, r1.1, *b1, *b2, f), a, b)
                }
            },
            (Term::Pi(_, t1, b1), Term::Pi(_, t2, b2)) => {
                let r1 = spec_eq_term(bodies, metas, sols, *t1, *t2, f);
                if r1.0 is Err {
                    below(r1, a, b)
                } else {
                    below(spec_eq_term(bodies, metas, r1.1, *b1, *b2, f), a, b)
                }
            },
            (Term::Sigma(_, t1, b1), Term::Sigma(_, t2, b2)) => {
                let r1 = spec_eq_term(bodies, metas, sols, *t1, *t2, f);
                if r1.0 is Err {
                    below(r1, a, b)
                } else {
                    below(spec_eq_term(bodies, metas, r1.1, *b1, *b2, f), a, b)
                }
            },
            (Term::Let(t1, v1, b1), Term::Let(t2, v2, b2)) => {
                let r1 = spec_eq_term(bodies, metas, sols, *t1, *t2, f);
                if r1.0 is Err {
                    below(r1, a, b)
                } else {
                    let r2 = spec_eq_term(bodies, metas, r1.1, *v1, *v2, f);
                    if r2.0 is Err {
                        below(r2, a, b)
                    } else {
                        below(spec_eq_term(bodies, metas, r2.1, *b1, *b2, f), a, b)
                    }
                }
            },
            _ => (Err(UnifyError::Mismatch { a, b }), sols),
        }
    }
}

/// Assigning `value` to metavariable `meta`, or unifying with its solution if it has one.
pub open spec fn spec_solve_mvar(
    bodies: Seq<Option<Term>>,
    metas: Seq<MetaView>,
    sols: Seq<(Unique, Term)>,
    meta: Unique,
    value: Term,
    fuel: nat,
) -> (Result<(), UnifyError>, Seq<(Unique, Term)>)
    decreases fuel, 0nat,
{
    match lookup(sols, meta) {
        Some(s) => if fuel == 0 {
            (Err(UnifyError::Exhausted { a: Term::MVar(meta), b: value }), sols)
        } else {
            spec_eq_term(bodies, metas, sols, s, value, (fuel - 1) as nat)
        },
        None => match spec_whnf(bodies, sols, value, fuel) {
            None => (Err(UnifyError::Exhausted { a: Term::MVar(meta), b: value }), sols),
            Some(v) => if v == Term::MVar(meta) {
                (Ok(()), sols)
            } else if spec_contains_mvar(sols, meta, v, Seq::empty()) {
                (Err(UnifyError::Occurs { meta: Term::MVar(meta), value: v }), sols)
            } else if !spec_fits_meta_scope(metas, sols, meta, v) {
                (Err(UnifyError::Escaping { meta: Term::MVar(meta), value: v }), sols)
            } else {
                (Ok(()), sols.push((meta, v)))
            },
        },
    }
}

/// Appends `m` to a copy of `seen`.
fn seen_push(seen: &Vec<Unique>, m: Unique) -> (r: Vec<Unique>)
    ensures
        r@ == seen@.push(m),
{
    let mut r: Vec<Unique> = Vec::new();
    let mut i: usize = 0;
    while i < seen.len()
        invariant
            i <= seen@.len(),
            r@ == seen@.take(i as int),
        decreases seen.len() - i,
    {
        r.push(seen[i]);
        i = i + 1;
        assert(r@ =~= seen@.take(i as int));
    }
    assert(seen@.take(seen@.len() as int) =~= seen@);
    r.push(m);
    r
}

/// Whether `u` is in `v`.
pub fn contains_unique(v: &Vec<Unique>, u: Unique) -> (r: bool)
    ensures
        r == v@.contains(u),
{
    let mut i: usize = 0;
    while i < v.len()
        invariant
            i <= v@.len(),
            forall|j: int| 0 <= j < i ==> v@[j] != u,
        decreases v.len() - i,
    {
        if v[i] == u {
            assert(v@[i as int] == u);
            return true;
        }
        i = i + 1;
    }
    false
}

/// Whether `needle` occurs in `term`, through solutions of metavariables off the path `seen`.
pub fn contains_mvar(mctx: &MetaCtx, needle: Unique, term: &Term, seen: &Vec<Unique>) -> (r: bool)
    ensures
        r == spec_contains_mvar(mctx.solutions(), needle, *term, seen@),
    decreases unseen(mctx.solutions(), seen@), term,
{
    match term {
        Term::MVar(m) => {
            if *m == needle {
                true
            } else if contains_unique(seen, *m) {
                false
            } else {
                match mctx.get_solution(*m) {
                    Some(v) => {
                        let s2 = seen_push(seen, *m);
                        proof {
                            lemma_unseen_push(mctx.solutions(), seen@, *m);
                        }
                        contains_mvar(mctx, needle, v, &s2)
                    },
                    None => false,
                }
            }
        },
        Term::App(f, x) => contains_mvar(mctx, needle, f, seen) || contains_mvar(mctx, needle, x, seen),
        Term::Lam(_, a, b) | Term::Pi(_, a, b) | Term::Sigma(_, a, b) => contains_mvar(
            mctx,
            needle,
            a,
            seen,
        ) || contains_mvar(mctx, needle, b, seen),
        Term::Let(a, v, b) => contains_mvar(mctx, needle, a, seen) || contains_mvar(
            mctx,
            needle,
            v,
            seen,
        ) || contains_mvar(mctx, needle, b, seen),
        _ => false,
    }
}

/// Whether every local of the scope of `meta` is in `allowed`.
pub fn meta_context_fits_scope(mctx: &MetaCtx, meta: Unique, allowed: &Vec<Unique>) -> (r: bool)
    ensures
        r == spec_meta_context_fits(mctx.metas(), meta, allowed@),
{
    proof {
        lemma_find_meta_facts(mctx.metas(), meta);
    }
    match mctx.get_meta(meta) {
        None => false,
        Some(m) => {
            let ghost k = find_meta(mctx.metas(), meta).unwrap();
            let n = m.lctx.len();
            let mut i: usize = 0;
            while i < n
                invariant
                    n == m.lctx@.len(),
                    i <= n,
                    find_meta(mctx.metas(), meta) == Some(k),
                    0 <= k < mctx.metas().len(),
                    mctx.metas()[k] == (m.id, m.ty, m.lctx@),
                    forall|j: int| 0 <= j < i ==> allowed@.contains(#[trigger] m.lctx@[j].unique),
                decreases n - i,
            {
                if !contains_unique(allowed, m.lctx.get(i).unique) {
                    proof {
                        assert(mctx.metas()[k].2[i as int] == m.lctx@[i as int]);
                        assert(!allowed@.contains(mctx.metas()[k].2[i as int].unique));
                    }
                    return false;
                }
                i = i + 1;
            }
            true
        },
    }
}

/// Whether `term`, under `depth` binders, mentions only locals of `allowed`.
pub fn term_fits_scope(
    mctx: &MetaCtx,
    term: &Term,
    allowed: &Vec<Unique>,
    depth: usize,
    seen: &Vec<Unique>,
) -> (r: bool)
    ensures
        r == spec_term_fits_scope(mctx.metas(), mctx.solutions(), *term, allowed@, depth as nat, seen@),
    decreases unseen(mctx.solutions(), seen@), term,
{
    let inner = if depth < usize::MAX {
        depth + 1
    } else {
        depth
    };
    match term {
        Term::BVar(i) => *i < depth,
        Term::FVar(u) => contains_unique(allowed, *u),
        Term::MVar(m) => match mctx.get_solution(*m) {
            Some(v) => if contains_unique(seen, *m) {
                true
            } else {
                let s2 = seen_push(seen, *m);
                proof {
                    lemma_unseen_push(mctx.solutions(), seen@, *m);
                }
                term_fits_scope(mctx, v, allowed, depth, &s2)
            },
            None => meta_context_fits_scope(mctx, *m, allowed),
        },
        Term::App(f, x) => term_fits_scope(mctx, f, allowed, depth, seen) && term_fits_scope(
            mctx,
            x,
            allowed,
            depth,
            seen,
        ),
        Term::Lam(_, a, b) | Term::Pi(_, a, b) | Term::Sigma(_, a, b) => term_fits_scope(
            mctx,
            a,
            allowed,
            depth,
            seen,
        ) && term_fits_scope(mctx, b, allowed, inner, seen),
        Term::Let(a, v, b) => term_fits_scope(mctx, a, allowed, depth, seen) && term_fits_scope(
            mctx,
            v,
            allowed,
            depth,
            seen,
        ) && term_fits_scope(mctx, b, allowed, inner, seen),
        _ => true,
    }
}

/// Whether `value` mentions only locals in scope where `meta` was created.
pub fn term_fits_meta_scope(mctx: &MetaCtx, meta: Unique, value: &Term) -> (r: bool)
    ensures
        r == spec_fits_meta_scope(mctx.metas(), mctx.solutions(), meta, *value),
{
    proof {
        lemma_find_meta_facts(mctx.metas(), meta);
    }
    match mctx.get_meta(meta) {
        None => false,
        Some(m) => {
            let n = m.lctx.len();
            let mut allowed: Vec<Unique> = Vec::new();
            let mut i: usize = 0;
            while i < n
                invariant
                    n == m.lctx@.len(),
                    i <= n,
                    allowed@ == m.lctx@.take(i as int).map_values(|b: LocalBinder| b.unique),
                decreases n - i,
            {
                allowed.push(m.lctx.get(i).unique);
                i = i + 1;
                assert(allowed@ =~= m.lctx@.take(i as int).map_values(|b: LocalBinder| b.unique));
            }
            assert(m.lctx@.take(n as int) =~= m.lctx@);
            let empty: Vec<Unique> = Vec::new();
            term_fits_scope(mctx, value, &allowed, 0, &empty)
        },
    }
}

fn is_mvar(t: &Term, m: Unique) -> (r: bool)
    ensures
        r == (*t == Term::MVar(m)),
{
    match t {
        Term::MVar(o) => *o == m,
        _ => false,
    }
}

/// Unifies `a` with `b`, solving metavariables of `mctx`, within `fuel` steps.
pub fn eq_term(env: &Env, mctx: &mut MetaCtx, a: &Term, b: &Term, fuel: usize) -> (r: Result<
    (),
    UnifyError,
>)
    requires
        old(mctx).wf(),
    ensures
        final(mctx).wf(),
        final(mctx).metas() == old(mctx).metas(),
        (r, final(mctx).solutions()) == spec_eq_term(
            env.bodies@,
            old(mctx).metas(),
            old(mctx).solutions(),
            *a,
            *b,
            fuel as nat,
        ),
    decreases fuel, 2nat,
{
    if fuel == 0 {
        return Err(UnifyError::Exhausted { a: a.copy(), b: b.copy() });
    }
    let wa = whnf_with_mvars(env, mctx, a, fuel);
    let wb = whnf_with_mvars(env, mctx, b, fuel);
    match (wa, wb) {
        (Some(wa), Some(wb)) => if term_eq(&wa, &wb) {
            Ok(())
        } else {
            eq_whnf(env, mctx, &wa, &wb, fuel)
        },
        _ => Err(UnifyError::Exhausted { a: a.copy(), b: b.copy() }),
    }
}

fn below_exec(r: Result<(), UnifyError>, a: &Term, b: &Term) -> (out: Result<(), UnifyError>)
    ensures
        out == match r {
            Ok(()) => Ok(()),
            Err(c) => Err(UnifyError::Below { a: *a, b: *b, cause: Box::new(c) }),
        },
{
    match r {
        Ok(()) => Ok(()),
        Err(c) => Err(UnifyError::Below { a: a.copy(), b: b.copy(), cause: Box::new(c) }),
    }
}

/// Unifies two terms in weak head normal form that are not the same.
fn eq_whnf(env: &Env, mctx: &mut MetaCtx, a: &Term, b: &Term, fuel: usize) -> (r: Result<
    (),
    UnifyError,
>)
    requires
        old(mctx).wf(),
    ensures
        final(mctx).wf(),
        final(mctx).metas() == old(mctx).metas(),
        (r, final(mctx).solutions()) == spec_eq_whnf(
            env.bodies@,
            old(mctx).metas(),
            old(mctx).solutions(),
            *a,
            *b,
            fuel as nat,
        ),
    decreases fuel, 1nat,
{
    if fuel == 0 {
        return Err(UnifyError::Exhausted { a: a.copy(), b: b.copy() });
    }
    let f = fuel - 1;
    match (a, b) {
        (Term::MVar(u), _) => {
            solve_mvar(env, mctx, *u, b, fuel)
        },
        (_, Term::MVar(v)) => {
            solve_mvar(env, mctx, *v, a, fuel)
        },
        (Term::App(f1, x1), Term::App(f2, x2)) => {
            assert(!(*a is MVar) && !(*b is MVar));
            let r1 = eq_term(env, mctx, f1, f2, f);
            if r1.is_err() {
                return below_exec(r1, a, b);
            }
            let r2 = eq_term(env, mctx, x1, x2, f);
            below_exec(r2, a, b)
        },
        (Term::Lam(_, t1, b1), Term::Lam(_, t2, b2)) => {
            assert(!(*a is MVar) && !(*b is MVar));
            let r1 = eq_term(env, mctx, t1, t2, f);
            if r1.is_err() {
                return below_exec(r1, a, b);
            }
            let r2 = eq_term(env, mctx, b1, b2, f);
            below_exec(r2, a, b)
        },
        (Term::Pi(_, t1, b1), Term::Pi(_, t2, b2)) => {
            assert(!(*a is MVar) && !(*b is MVar));
            let r1 = eq_term(env, mctx, t1, t2, f);
            if r1.is_err() {
                return below_exec(r1, a, b);
            }
            let r2 = eq_term(env, mctx, b1, b2, f);
            below_exec(r2, a, b)
        },
        (Term::Sigma(_, t1, b1), Term::Sigma(_, t2, b2)) => {
            assert(!(*a is MVar) && !(*b is MVar));
            let r1 = eq_term(env, mctx, t1, t2, f);
            if r1.is_err() {
                return below_exec(r1, a, b);
            }
            let r2 = eq_term(env, mctx, b1, b2, f);
            below_exec(r2, a, b)
        },
        (Term::Let(t1, v1, b1), Term::Let(t2, v2, b2)) => {
            assert(!(*a is MVar) && !(*b is MVar));
            let r1 = eq_term(env, mctx, t1, t2, f);
            if r1.is_err() {
                return below_exec(r1, a, b);
            }
            let r2 = eq_term(env, mctx, v1, v2, f);
            if r2.is_err() {
                return below_exec(r2, a, b);
            }
            let r3 = eq_term(env, mctx, b1, b2, f);
            below_exec(r3, a, b)
        },
        _ => {
            let r = Err(UnifyError::Mismatch { a: a.copy(), b: b.copy() });
            assert(!(*a is MVar) && !(*b is MVar));
            r
        },
    }
}

/// Solves `meta` with `value`, or unifies its solution with `value` if it has one.
fn solve_mvar(env: &Env, mctx: &mut MetaCtx, meta: Unique, value: &Term, fuel: usize) -> (r: Result<
    (),
    UnifyError,
>)
    requires
        old(mctx).wf(),
    ensures
        final(mctx).wf(),
        final(mctx).metas() == old(mctx).metas(),
        (r, final(mctx).solutions()) == spec_solve_mvar(
            env.bodies@,
            old(mctx).metas(),
            old(mctx).solutions(),
            meta,
            *value,
            fuel as nat,
        ),
    decreases fuel, 0nat,
{
    let existing: Option<Term> = match mctx.get_solution(meta) {
        Some(s) => Some(s.copy()),
        None => None,
    };
    match existing {
        Some(s) => {
            if fuel == 0 {
                return Err(UnifyError::Exhausted { a: Term::MVar(meta), b: value.copy() });
            }
            eq_term(env, mctx, &s, value, fuel - 1)
        },
        None => match whnf_with_mvars(env, mctx, value, fuel) {
            None => Err(UnifyError::Exhausted { a: Term::MVar(meta), b: value.copy() }),
            Some(v) => {
                if is_mvar(&v, meta) {
                    return Ok(());
                }
                let empty: Vec<Unique> = Vec::new();
                if contains_mvar(mctx, meta, &v, &empty) {
                    return Err(UnifyError::Occurs { meta: Term::MVar(meta), value: v });
                }
                if !term_fits_meta_scope(mctx, meta, &v) {
                    return Err(UnifyError::Escaping { meta: Term::MVar(meta), value: v });
                }
                mctx.solve_meta(meta, v);
                Ok(())
            },
        },
    }
}

impl<'a> ElabCtx<'a> {
    /// Unifies `a` with `b` within the budget, solving holes on the way.
    pub fn unify(&mut self, a: &Term, b: &Term) -> (r: Result<(), UnifyError>)
        requires
            old(self).mctx.wf(),
        ensures
            final(self).mctx.wf(),
            final(self).mctx.metas() == old(self).mctx.metas(),
            (r, final(self).mctx.solutions()) == spec_eq_term(
                old(self).env.bodies@,
                old(self).mctx.metas(),
                old(self).mctx.solutions(),
                *a,
                *b,
                old(self).fuel as nat,
            ),
            final(self).env == old(self).env,
            final(self).lang_items == old(self).lang_items,
            final(self).namespace == old(self).namespace,
            final(self).fuel == old(self).fuel,
            final(self).lctx == old(self).lctx,
            final(self).gen_ == old(self).gen_,
            final(self).diagnostics == old(self).diagnostics,
            final(self).autobound == old(self).autobound,
            final(self).frames == old(self).frames,
            final(self).current_decl == old(self).current_decl,
            final(self).file == old(self).file,
    {
        eq_term(self.env, &mut self.mctx, a, b, self.fuel)
    }
}

} // verus!

verus! {

// ---------------------------------------------------------------------------
// Laws.

/// `new` keeps every entry of `old`, in place, and may add more after them.
pub open spec fn extends(old: Seq<(Unique, Term)>, new: Seq<(Unique, Term)>) -> bool {
    old.len() <= new.len() && forall|i: int| 0 <= i < old.len() ==> #[trigger] new[i] == old[i]
}

/// No recorded solution mentions its own metavariable.
pub open spec fn no_self_reference(sols: Seq<(Unique, Term)>) -> bool {
    forall|i: int| 0 <= i < sols.len() ==> !has_mvar(#[trigger] sols[i].1, sols[i].0)
}

/// A metavariable written in `t` is found by the occurs check.
pub proof fn lemma_contains_written(sols: Seq<(Unique, Term)>, needle: Unique, t: Term, seen: Seq<Unique>)
    requires
        has_mvar(t, needle),
    ensures
        spec_contains_mvar(sols, needle, t, seen),
    decreases t,
{
    match t {
        Term::App(f, x) => {
            if has_mvar(*f, needle) {
                lemma_contains_written(sols, needle, *f, seen);
            } else {
                lemma_contains_written(sols, needle, *x, seen);
            }
        },
        Term::Lam(_, a, b) | Term::Pi(_, a, b) | Term::Sigma(_, a, b) => {
            if has_mvar(*a, needle) {
                lemma_contains_written(sols, needle, *a, seen);
            } else {
                lemma_contains_written(sols, needle, *b, seen);
            }
        },
        Term::Let(a, v, b) => {
            if has_mvar(*a, needle) {
                lemma_contains_written(sols, needle, *a, seen);
            } else if has_mvar(*v, needle) {
                lemma_contains_written(sols, needle, *v, seen);
            } else {
                lemma_contains_written(sols, needle, *b, seen);
            }
        },
        _ => {},
    }
}

pub proof fn lemma_extends_trans(s1: Seq<(Unique, Term)>, s2: Seq<(Unique, Term)>, s3: Seq<(Unique, Term)>)
    requires
        extends(s1, s2),
        extends(s2, s3),
    ensures
        extends(s1, s3),
{
    assert forall|i: int| 0 <= i < s1.len() implies #[trigger] s3[i] == s1[i] by {
        assert(s3[i] == s2[i]);
    }
}

/// The invariants a unification step keeps on the solutions.
pub open spec fn keeps(old: Seq<(Unique, Term)>, new: Seq<(Unique, Term)>) -> bool {
    &&& extends(old, new)
    &&& keys_distinct(old) ==> keys_distinct(new)
    &&& no_self_reference(old) ==> no_self_reference(new)
    &&& acyclic(old) ==> acyclic(new)
}

pub proof fn lemma_keeps_trans(s1: Seq<(Unique, Term)>, s2: Seq<(Unique, Term)>, s3: Seq<(Unique, Term)>)
    requires
        keeps(s1, s2),
        keeps(s2, s3),
    ensures
        keeps(s1, s3),
{
    lemma_extends_trans(s1, s2, s3);
}

pub proof fn lemma_keeps_refl(s: Seq<(Unique, Term)>)
    ensures
        keeps(s, s),
{
}

/// Unifying two terms only adds solutions: those already there stay, no
/// metavariable is solved twice, no solution mentions its own metavariable,
/// and no chain of solutions leads back to where it started.
pub proof fn lemma_eq_term_keeps(
    bodies: Seq<Option<Term>>,
    metas: Seq<MetaView>,
    sols: Seq<(Unique, Term)>,
    a: Term,
    b: Term,
    fuel: nat,
)
    ensures
        keeps(sols, spec_eq_term(bodies, metas, sols, a, b, fuel).1),
    decreases fuel, 2nat,
{
    if fuel > 0 {
        match (spec_whnf(bodies, sols, a, fuel), spec_whnf(bodies, sols, b, fuel)) {
            (Some(wa), Some(wb)) => if !term_same(wa, wb) {
                lemma_eq_whnf_keeps(bodies, metas, sols, wa, wb, fuel);
            },
            _ => {},
        }
    }
}

/// `lemma_eq_term_keeps`, for terms already reduced.
pub proof fn lemma_eq_whnf_keeps(
    bodies: Seq<Option<Term>>,
    metas: Seq<MetaView>,
    sols: Seq<(Unique, Term)>,
    a: Term,
    b: Term,
    fuel: nat,
)
    ensures
        keeps(sols, spec_eq_whnf(bodies, metas, sols, a, b, fuel).1),
    decreases fuel, 1nat,
{
    if fuel > 0 {
        let f = (fuel - 1) as nat;
        match (a, b) {
            (Term::MVar(u), _) => lemma_solve_mvar_keeps(bodies, metas, sols, u, b, fuel),
            (_, Term::MVar(v)) => lemma_solve_mvar_keeps(bodies, metas, sols, v, a, fuel),
            (Term::App(f1, x1), Term::App(f2, x2)) => {
                lemma_eq_term_keeps(bodies, metas, sols, *f1, *f2, f);
                let r1 = spec_eq_term(bodies, metas, sols, *f1, *f2, f);
                lemma_eq_term_keeps(bodies, metas, r1.1, *x1, *x2, f);
                lemma_keeps_trans(sols, r1.1, spec_eq_term(bodies, metas, r1.1, *x1, *x2, f).1);
            },
            (Term::Lam(_, t1, b1), Term::Lam(_, t2, b2)) => {
                lemma_eq_term_keeps(bodies, metas, sols, *t1, *t2, f);
                let r1 = spec_eq_term(bodies, metas, sols, *t1, *t2, f);
                lemma_eq_term_keeps(bodies, metas, r1.1, *b1, *b2, f);
                lemma_keeps_trans(sols, r1.1, spec_eq_term(bodies, metas, r1.1, *b1, *b2, f).1);
            },
            (Term::Pi(_, t1, b1), Term::Pi(_, t2, b2)) => {
                lemma_eq_term_keeps(bodies, metas, sols, *t1, *t2, f);
                let r1 = spec_eq_term(bodies, metas, sols, *t1, *t2, f);
                lemma_eq_term_keeps(bodies, metas, r1.1, *b1, *b2, f);
                lemma_keeps_trans(sols, r1.1, spec_eq_term(bodies, metas, r1.1, *b1, *b2, f).1);
            },
            (Term::Sigma(_, t1, b1), Term::Sigma(_, t2, b2)) => {
                lemma_eq_term_keeps(bodies, metas, sols, *t1, *t2, f);
                let r1 = spec_eq_term(bodies, metas, sols, *t1, *t2, f);
                lemma_eq_term_keeps(bodies, metas, r1.1, *b1, *b2, f);
                lemma_keeps_trans(sols, r1.1, spec_eq_term(bodies, metas, r1.1, *b1, *b2, f).1);
            },
            (Term::Let(t1, v1, b1), Term::Let(t2, v2, b2)) => {
                lemma_eq_term_keeps(bodies, metas, sols, *t1, *t2, f);
                let r1 = spec_eq_term(bodies, metas, sols, *t1, *t2, f);
                lemma_eq_term_keeps(bodies, metas, r1.1, *v1, *v2, f);
                let r2 = spec_eq_term(bodies, metas, r1.1, *v1, *v2, f);
                lemma_eq_term_keeps(bodies, metas, r2.1, *b1, *b2, f);
                lemma_keeps_trans(sols, r1.1, r2.1);
                lemma_keeps_trans(sols, r2.1, spec_eq_term(bodies, metas, r2.1, *b1, *b2, f).1);
            },
            _ => {},
        }
    }
}

/// `lemma_eq_term_keeps`, for solving one metavariable.
pub proof fn lemma_solve_mvar_keeps(
    bodies: Seq<Option<Term>>,
    metas: Seq<MetaView>,
    sols: Seq<(Unique, Term)>,
    meta: Unique,
    value: Term,
    fuel: nat,
)
    ensures
        keeps(sols, spec_solve_mvar(bodies, metas, sols, meta, value, fuel).1),
    decreases fuel, 0nat,
{
    match lookup(sols, meta) {
        Some(s) => if fuel > 0 {
            lemma_eq_term_keeps(bodies, metas, sols, s, value, (fuel - 1) as nat);
        },
        None => match spec_whnf(bodies, sols, value, fuel) {
            None => {},
            Some(v) => if v != Term::MVar(meta) && !spec_contains_mvar(sols, meta, v, Seq::empty())
                && spec_fits_meta_scope(metas, sols, meta, v) {
                let new = sols.push((meta, v));
                lemma_lookup_facts(sols, meta);
                if has_mvar(v, meta) {
                    lemma_contains_written(sols, meta, v, Seq::empty());
                }
                assert forall|i: int| 0 <= i < sols.len() implies #[trigger] new[i] == sols[i] by {}
                if keys_distinct(sols) {
                    assert forall|i: int, j: int|
                        0 <= i < new.len() && 0 <= j < new.len() && i != j implies #[trigger] new[i].0
                        != #[trigger] new[j].0 by {
                        if i < sols.len() && j < sols.len() {
                            assert(new[i] == sols[i]);
                            assert(new[j] == sols[j]);
                        } else if i < sols.len() {
                            assert(new[i] == sols[i]);
                            assert(sols[i].0 != meta);
                        } else {
                            assert(new[j] == sols[j]);
                            assert(sols[j].0 != meta);
                        }
                    }
                }
                if acyclic(sols) {
                    lemma_acyclic_push(sols, meta, v);
                }
                if no_self_reference(sols) {
                    assert forall|i: int| 0 <= i < new.len() implies !has_mvar(
                        #[trigger] new[i].1,
                        new[i].0,
                    ) by {
                        if i < sols.len() {
                            assert(new[i] == sols[i]);
                        }
                    }
                }
            },
        },
    }
}

/// Unifying a term with itself succeeds at once and solves nothing, whenever
/// the term reduces within the budget.
pub proof fn lemma_eq_term_refl(
    bodies: Seq<Option<Term>>,
    metas: Seq<MetaView>,
    sols: Seq<(Unique, Term)>,
    a: Term,
    fuel: nat,
)
    requires
        spec_whnf(bodies, sols, a, fuel) is Some,
    ensures
        spec_eq_term(bodies, metas, sols, a, a, fuel) == (Ok::<(), UnifyError>(()), sols),
{
    lemma_term_same_refl(spec_whnf(bodies, sols, a, fuel).unwrap());
}

/// A solution already recorded before unification is the same afterwards.
pub proof fn lemma_eq_term_keeps_solutions(
    bodies: Seq<Option<Term>>,
    metas: Seq<MetaView>,
    sols: Seq<(Unique, Term)>,
    a: Term,
    b: Term,
    fuel: nat,
    u: Unique,
)
    requires
        lookup(sols, u) is Some,
    ensures
        lookup(spec_eq_term(bodies, metas, sols, a, b, fuel).1, u) == lookup(sols, u),
{
    let new = spec_eq_term(bodies, metas, sols, a, b, fuel).1;
    lemma_eq_term_keeps(bodies, metas, sols, a, b, fuel);
    lemma_lookup_prefix(sols, new, u);
}

/// A lookup that succeeds in a prefix gives the same answer in the whole.
pub proof fn lemma_lookup_prefix(old: Seq<(Unique, Term)>, new: Seq<(Unique, Term)>, u: Unique)
    requires
        extends(old, new),
        lookup(old, u) is Some,
    ensures
        lookup(new, u) == lookup(old, u),
    decreases old.len(),
{
    assert(new[0] == old[0]);
    if old[0].0 != u {
        assert forall|i: int| 0 <= i < old.drop_first().len() implies #[trigger] new.drop_first()[i]
            == old.drop_first()[i] by {
            assert(new[i + 1] == old[i + 1]);
        }
        lemma_lookup_prefix(old.drop_first(), new.drop_first(), u);
    }
}


/// `t` has nothing left to compute: no hole, no `let`, no definition with
/// a body, and no function applied to an argument.
pub open spec fn inert(bodies: Seq<Option<Term>>, t: Term) -> bool
    decreases t,
{
    match t {
        Term::App(f, x) => !(*f is Lam) && inert(bodies, *f) && inert(bodies, *x),
        Term::Lam(_, a, b) | Term::Pi(_, a, b) | Term::Sigma(_, a, b) => inert(bodies, *a) && inert(bodies, *b),
        Term::MVar(_) | Term::Let(..) => false,
        Term::Const(c) => crate::env::spec_def_body(bodies, c) is None,
        _ => true,
    }
}

/// `a` and `b` are the same term, but for how their binders pass arguments.
pub open spec fn same_but_passing(a: Term, b: Term) -> bool
    decreases a,
{
    match (a, b) {
        (Term::App(f1, x1), Term::App(f2, x2)) => same_but_passing(*f1, *f2) && same_but_passing(*x1, *x2),
        (Term::Lam(_, a1, b1), Term::Lam(_, a2, b2)) => same_but_passing(*a1, *a2) && same_but_passing(*b1, *b2),
        (Term::Pi(_, a1, b1), Term::Pi(_, a2, b2)) => same_but_passing(*a1, *a2) && same_but_passing(*b1, *b2),
        (Term::Sigma(_, a1, b1), Term::Sigma(_, a2, b2)) => same_but_passing(*a1, *a2) && same_but_passing(
            *b1,
            *b2,
        ),
        (Term::Let(a1, v1, b1), Term::Let(a2, v2, b2)) => same_but_passing(*a1, *a2) && same_but_passing(*v1, *v2)
            && same_but_passing(*b1, *b2),
        (Term::Lit(l1), Term::Lit(l2)) => crate::term::literal_same(l1, l2),
        (Term::App(..), _) | (Term::Lam(..), _) | (Term::Pi(..), _) | (Term::Sigma(..), _) | (Term::Let(..), _) | (
            Term::Lit(..),
            _,
        ) => false,
        _ => a == b,
    }
}

/// A term with nothing left to compute reduces to itself, if at all.
proof fn lemma_inert_whnf(bodies: Seq<Option<Term>>, sols: Seq<(Unique, Term)>, t: Term, fuel: nat)
    requires
        inert(bodies, t),
    ensures
        spec_whnf(bodies, sols, t, fuel) is None || spec_whnf(bodies, sols, t, fuel) == Some(t),
    decreases t,
{
    if fuel > 0 {
        if let Term::App(f, x) = t {
            lemma_inert_whnf(bodies, sols, *f, (fuel - 1) as nat);
        }
    }
}

/// Terms that are the same are the same but for passing.
proof fn lemma_same_but_passing(a: Term, b: Term)
    requires
        term_same(a, b),
    ensures
        same_but_passing(a, b),
    decreases a,
{
    match (a, b) {
        (Term::App(f1, x1), Term::App(f2, x2)) => {
            lemma_same_but_passing(*f1, *f2);
            lemma_same_but_passing(*x1, *x2);
        },
        (Term::Lam(_, a1, b1), Term::Lam(_, a2, b2)) | (Term::Pi(_, a1, b1), Term::Pi(_, a2, b2)) | (
            Term::Sigma(_, a1, b1),
            Term::Sigma(_, a2, b2),
        ) => {
            lemma_same_but_passing(*a1, *a2);
            lemma_same_but_passing(*b1, *b2);
        },
        (Term::Let(a1, v1, b1), Term::Let(a2, v2, b2)) => {
            lemma_same_but_passing(*a1, *a2);
            lemma_same_but_passing(*v1, *v2);
            lemma_same_but_passing(*b1, *b2);
        },
        _ => {},
    }
}

/// Unification is sound on terms with nothing left to compute: where it
/// succeeds the two terms are the same but for how binders pass their
/// arguments; in particular two function types unify only where their
/// domains and their codomains do.
pub proof fn lemma_unify_sound_on_inert(
    bodies: Seq<Option<Term>>,
    metas: Seq<MetaView>,
    sols: Seq<(Unique, Term)>,
    a: Term,
    b: Term,
    fuel: nat,
)
    requires
        inert(bodies, a),
        inert(bodies, b),
        spec_eq_term(bodies, metas, sols, a, b, fuel).0 is Ok,
    ensures
        same_but_passing(a, b),
    decreases fuel, 2nat,
{
    lemma_inert_whnf(bodies, sols, a, fuel);
    lemma_inert_whnf(bodies, sols, b, fuel);
    if term_same(a, b) {
        lemma_same_but_passing(a, b);
    } else {
        lemma_eq_whnf_sound_on_inert(bodies, metas, sols, a, b, fuel);
    }
}

/// Unification of terms in normal form is sound on terms with nothing left
/// to compute.
proof fn lemma_eq_whnf_sound_on_inert(
    bodies: Seq<Option<Term>>,
    metas: Seq<MetaView>,
    sols: Seq<(Unique, Term)>,
    a: Term,
    b: Term,
    fuel: nat,
)
    requires
        inert(bodies, a),
        inert(bodies, b),
        spec_eq_whnf(bodies, metas, sols, a, b, fuel).0 is Ok,
    ensures
        same_but_passing(a, b),
    decreases fuel, 1nat,
{
    let f = (fuel - 1) as nat;
    match (a, b) {
        (Term::App(f1, x1), Term::App(f2, x2)) => {
            let r1 = spec_eq_term(bodies, metas, sols, *f1, *f2, f);
            lemma_unify_sound_on_inert(bodies, metas, sols, *f1, *f2, f);
            lemma_unify_sound_on_inert(bodies, metas, r1.1, *x1, *x2, f);
        },
        (Term::Lam(_, t1, b1), Term::Lam(_, t2, b2)) | (Term::Pi(_, t1, b1), Term::Pi(_, t2, b2)) | (
            Term::Sigma(_, t1, b1),
            Term::Sigma(_, t2, b2),
        ) => {
            let r1 = spec_eq_term(bodies, metas, sols, *t1, *t2, f);
            lemma_unify_sound_on_inert(bodies, metas, sols, *t1, *t2, f);
            lemma_unify_sound_on_inert(bodies, metas, r1.1, *b1, *b2, f);
        },
        _ => {},
    }
}

/// Unification is reflexive: a term unifies with itself, leaving the
/// solutions as they were, wherever it can be reduced within the steps.
pub proof fn lemma_unify_reflexive(
    bodies: Seq<Option<Term>>,
    metas: Seq<MetaView>,
    sols: Seq<(Unique, Term)>,
    a: Term,
    fuel: nat,
)
    requires
        spec_whnf(bodies, sols, a, fuel) is Some,
    ensures
        spec_eq_term(bodies, metas, sols, a, a, fuel) == (Ok::<(), UnifyError>(()), sols),
{
    lemma_term_same_refl(spec_whnf(bodies, sols, a, fuel).unwrap());
}


/// A hole with no solution, once solved, has the solution it was given.
proof fn lemma_lookup_push_absent(sols: Seq<(Unique, Term)>, m: Unique, v: Term)
    requires
        lookup(sols, m) is None,
    ensures
        lookup(sols.push((m, v)), m) == Some(v),
    decreases sols.len(),
{
    if sols.len() > 0 {
        assert(sols.push((m, v)).drop_first() =~= sols.drop_first().push((m, v)));
        lemma_lookup_push_absent(sols.drop_first(), m, v);
    }
}

/// Unifying an unsolved hole with a term that has nothing left to compute
/// solves the hole with that very term, where it succeeds.
pub proof fn lemma_unify_solves_hole(
    bodies: Seq<Option<Term>>,
    metas: Seq<MetaView>,
    sols: Seq<(Unique, Term)>,
    m: Unique,
    t: Term,
    fuel: nat,
)
    requires
        lookup(sols, m) is None,
        inert(bodies, t),
        spec_eq_term(bodies, metas, sols, Term::MVar(m), t, fuel).0 is Ok,
    ensures
        lookup(spec_eq_term(bodies, metas, sols, Term::MVar(m), t, fuel).1, m) == Some(t),
{
    lemma_inert_whnf(bodies, sols, t, fuel);
    assert(spec_whnf(bodies, sols, Term::MVar(m), fuel) == Some(Term::MVar(m)));
    assert(!term_same(Term::MVar(m), t));
    assert(!(t is MVar));
    assert(fuel > 0);
    assert(spec_whnf(bodies, sols, t, fuel) == Some(t));
    assert(spec_eq_term(bodies, metas, sols, Term::MVar(m), t, fuel) == spec_eq_whnf(
        bodies,
        metas,
        sols,
        Term::MVar(m),
        t,
        fuel,
    ));
    assert(spec_eq_whnf(bodies, metas, sols, Term::MVar(m), t, fuel) == spec_solve_mvar(bodies, metas, sols, m, t, fuel));
    lemma_lookup_push_absent(sols, m, t);
}

} // verus!
