//! Substitution on locally nameless terms: closing a free variable into a
//! bound one, opening a bound variable with a term, and shifting indices.

use vstd::prelude::*;
use crate::ids::Unique;
use crate::term::{depth, depth_sat, has_fvar, max_bvar, max_bvar_sat, Term};

verus! {

/// `t` with free variable `x` turned into bound variable `k`, and every index
/// at or above `k` raised by one to make room for it.
pub open spec fn spec_abstract_at(t: Term, x: Unique, k: nat) -> Term
    decreases t,
{
    match t {
        Term::BVar(i) => if i >= k {
            Term::BVar((i + 1) as usize)
        } else {
            t
        },
        Term::FVar(u) => if u == x {
            Term::BVar(k as usize)
        } else {
            t
        },
        Term::App(f, a) => Term::App(
            Box::new(spec_abstract_at(*f, x, k)),
            Box::new(spec_abstract_at(*a, x, k)),
        ),
        Term::Lam(i, a, b) => Term::Lam(
            i,
            Box::new(spec_abstract_at(*a, x, k)),
            Box::new(spec_abstract_at(*b, x, k + 1)),
        ),
        Term::Pi(i, a, b) => Term::Pi(
            i,
            Box::new(spec_abstract_at(*a, x, k)),
            Box::new(spec_abstract_at(*b, x, k + 1)),
        ),
        Term::Sigma(i, a, b) => Term::Sigma(
            i,
            Box::new(spec_abstract_at(*a, x, k)),
            Box::new(spec_abstract_at(*b, x, k + 1)),
        ),
        Term::Let(a, v, b) => Term::Let(
            Box::new(spec_abstract_at(*a, x, k)),
            Box::new(spec_abstract_at(*v, x, k)),
            Box::new(spec_abstract_at(*b, x, k + 1)),
        ),
        _ => t,
    }
}

/// `t` with every index at or above `k` raised by `offset`.
pub open spec fn spec_shift_at(t: Term, offset: nat, k: nat) -> Term
    decreases t,
{
    match t {
        Term::BVar(i) => if i >= k {
            Term::BVar((i + offset) as usize)
        } else {
            t
        },
        Term::App(f, a) => Term::App(
            Box::new(spec_shift_at(*f, offset, k)),
            Box::new(spec_shift_at(*a, offset, k)),
        ),
        Term::Lam(i, a, b) => Term::Lam(
            i,
            Box::new(spec_shift_at(*a, offset, k)),
            Box::new(spec_shift_at(*b, offset, k + 1)),
        ),
        Term::Pi(i, a, b) => Term::Pi(
            i,
            Box::new(spec_shift_at(*a, offset, k)),
            Box::new(spec_shift_at(*b, offset, k + 1)),
        ),
        Term::Sigma(i, a, b) => Term::Sigma(
            i,
            Box::new(spec_shift_at(*a, offset, k)),
            Box::new(spec_shift_at(*b, offset, k + 1)),
        ),
        Term::Let(a, v, b) => Term::Let(
            Box::new(spec_shift_at(*a, offset, k)),
            Box::new(spec_shift_at(*v, offset, k)),
            Box::new(spec_shift_at(*b, offset, k + 1)),
        ),
        _ => t,
    }
}

/// Raising every index of `t` by `offset`.
pub open spec fn spec_shift(t: Term, offset: nat) -> Term {
    if offset == 0 {
        t
    } else {
        spec_shift_at(t, offset, 0)
    }
}

/// `t` with bound variable `k` replaced by `r` (shifted past the `k` binders
/// crossed) and every index above `k` lowered by one.
pub open spec fn spec_instantiate_at(t: Term, r: Term, k: nat) -> Term
    decreases t,
{
    match t {
        Term::BVar(i) => if i == k {
            spec_shift(r, k)
        } else if i > k {
            Term::BVar((i - 1) as usize)
        } else {
            t
        },
        Term::App(f, a) => Term::App(
            Box::new(spec_instantiate_at(*f, r, k)),
            Box::new(spec_instantiate_at(*a, r, k)),
        ),
        Term::Lam(i, a, b) => Term::Lam(
            i,
            Box::new(spec_instantiate_at(*a, r, k)),
            Box::new(spec_instantiate_at(*b, r, k + 1)),
        ),
        Term::Pi(i, a, b) => Term::Pi(
            i,
            Box::new(spec_instantiate_at(*a, r, k)),
            Box::new(spec_instantiate_at(*b, r, k + 1)),
        ),
        Term::Sigma(i, a, b) => Term::Sigma(
            i,
            Box::new(spec_instantiate_at(*a, r, k)),
            Box::new(spec_instantiate_at(*b, r, k + 1)),
        ),
        Term::Let(a, v, b) => Term::Let(
            Box::new(spec_instantiate_at(*a, r, k)),
            Box::new(spec_instantiate_at(*v, r, k)),
            Box::new(spec_instantiate_at(*b, r, k + 1)),
        ),
        _ => t,
    }
}

/// Closing `x` at index `k` stays within machine integers.
pub open spec fn abstract_fits(t: Term, k: nat) -> bool {
    max_bvar(t) < usize::MAX && depth(t) < usize::MAX && k + depth(t) <= usize::MAX
}

/// Shifting `t` by `offset` above `k` stays within machine integers.
pub open spec fn shift_fits(t: Term, offset: nat, k: nat) -> bool {
    max_bvar(t) + offset <= usize::MAX && k + depth(t) <= usize::MAX
}

/// Opening `t` at `k` with `r` stays within machine integers.
pub open spec fn instantiate_fits(t: Term, r: Term, k: nat) -> bool {
    depth(t) < usize::MAX && depth(r) < usize::MAX && max_bvar(r) < usize::MAX && k + depth(t)
        <= usize::MAX && max_bvar(r) + k + depth(t) <= usize::MAX
}

/// Closes free variable `fvar` into bound variable `index`.
pub fn abstract_fvar_at(term: &Term, fvar: Unique, index: usize) -> (r: Term)
    requires
        abstract_fits(*term, index as nat),
    ensures
        r == spec_abstract_at(*term, fvar, index as nat),
    decreases term,
{
    match term {
        Term::BVar(i) => if *i >= index {
            Term::BVar(*i + 1)
        } else {
            Term::BVar(*i)
        },
        Term::FVar(u) => if *u == fvar {
            Term::BVar(index)
        } else {
            Term::FVar(*u)
        },
        Term::App(f, x) => {
            let f = abstract_fvar_at(f, fvar, index);
            let x = abstract_fvar_at(x, fvar, index);
            Term::App(Box::new(f), Box::new(x))
        },
        Term::Lam(info, ty, body) => {
            let ty = abstract_fvar_at(ty, fvar, index);
            let body = abstract_fvar_at(body, fvar, index + 1);
            Term::Lam(*info, Box::new(ty), Box::new(body))
        },
        Term::Pi(info, ty, body) => {
            let ty = abstract_fvar_at(ty, fvar, index);
            let body = abstract_fvar_at(body, fvar, index + 1);
            Term::Pi(*info, Box::new(ty), Box::new(body))
        },
        Term::Sigma(info, ty, body) => {
            let ty = abstract_fvar_at(ty, fvar, index);
            let body = abstract_fvar_at(body, fvar, index + 1);
            Term::Sigma(*info, Box::new(ty), Box::new(body))
        },
        Term::Let(ty, value, body) => {
            let ty = abstract_fvar_at(ty, fvar, index);
            let value = abstract_fvar_at(value, fvar, index);
            let body = abstract_fvar_at(body, fvar, index + 1);
            Term::Let(Box::new(ty), Box::new(value), Box::new(body))
        },
        _ => term.copy(),
    }
}

/// Closes free variable `fvar` into the innermost bound variable.
pub fn abstract_fvar(term: &Term, fvar: Unique) -> (r: Term)
    requires
        abstract_fits(*term, 0),
    ensures
        r == spec_abstract_at(*term, fvar, 0),
{
    abstract_fvar_at(term, fvar, 0)
}

/// Raises every index at or above `index` by `offset`.
pub fn shift_at(term: &Term, offset: usize, index: usize) -> (r: Term)
    requires
        shift_fits(*term, offset as nat, index as nat),
    ensures
        r == spec_shift_at(*term, offset as nat, index as nat),
    decreases term,
{
    match term {
        Term::BVar(i) => if *i >= index {
            Term::BVar(*i + offset)
        } else {
            Term::BVar(*i)
        },
        Term::App(f, x) => {
            let f = shift_at(f, offset, index);
            let x = shift_at(x, offset, index);
            Term::App(Box::new(f), Box::new(x))
        },
        Term::Lam(info, ty, body) => {
            let ty = shift_at(ty, offset, index);
            let body = shift_at(body, offset, index + 1);
            Term::Lam(*info, Box::new(ty), Box::new(body))
        },
        Term::Pi(info, ty, body) => {
            let ty = shift_at(ty, offset, index);
            let body = shift_at(body, offset, index + 1);
            Term::Pi(*info, Box::new(ty), Box::new(body))
        },
        Term::Sigma(info, ty, body) => {
            let ty = shift_at(ty, offset, index);
            let body = shift_at(body, offset, index + 1);
            Term::Sigma(*info, Box::new(ty), Box::new(body))
        },
        Term::Let(ty, value, body) => {
            let ty = shift_at(ty, offset, index);
            let value = shift_at(value, offset, index);
            let body = shift_at(body, offset, index + 1);
            Term::Let(Box::new(ty), Box::new(value), Box::new(body))
        },
        _ => term.copy(),
    }
}

/// Raises every index by `offset`.
pub fn shift(term: &Term, offset: usize) -> (r: Term)
    requires
        shift_fits(*term, offset as nat, 0),
    ensures
        r == spec_shift(*term, offset as nat),
{
    if offset == 0 {
        term.copy()
    } else {
        shift_at(term, offset, 0)
    }
}

/// Replaces bound variable `index` by `replacement`.
pub fn instantiate_at(term: &Term, replacement: &Term, index: usize) -> (r: Term)
    requires
        instantiate_fits(*term, *replacement, index as nat),
    ensures
        r == spec_instantiate_at(*term, *replacement, index as nat),
    decreases term,
{
    match term {
        Term::BVar(i) => if *i == index {
            shift(replacement, index)
        } else if *i > index {
            Term::BVar(*i - 1)
        } else {
            Term::BVar(*i)
        },
        Term::App(f, x) => {
            let f = instantiate_at(f, replacement, index);
            let x = instantiate_at(x, replacement, index);
            Term::App(Box::new(f), Box::new(x))
        },
        Term::Lam(info, ty, body) => {
            let ty = instantiate_at(ty, replacement, index);
            let body = instantiate_at(body, replacement, index + 1);
            Term::Lam(*info, Box::new(ty), Box::new(body))
        },
        Term::Pi(info, ty, body) => {
            let ty = instantiate_at(ty, replacement, index);
            let body = instantiate_at(body, replacement, index + 1);
            Term::Pi(*info, Box::new(ty), Box::new(body))
        },
        Term::Sigma(info, ty, body) => {
            let ty = instantiate_at(ty, replacement, index);
            let body = instantiate_at(body, replacement, index + 1);
            Term::Sigma(*info, Box::new(ty), Box::new(body))
        },
        Term::Let(ty, value, body) => {
            let ty = instantiate_at(ty, replacement, index);
            let value = instantiate_at(value, replacement, index);
            let body = instantiate_at(body, replacement, index + 1);
            Term::Let(Box::new(ty), Box::new(value), Box::new(body))
        },
        _ => term.copy(),
    }
}

/// Replaces the innermost bound variable by `replacement`.
pub fn instantiate(term: &Term, replacement: &Term) -> (r: Term)
    requires
        instantiate_fits(*term, *replacement, 0),
    ensures
        r == spec_instantiate_at(*term, *replacement, 0),
{
    instantiate_at(term, replacement, 0)
}

/// Whether opening `t` at `index` with `r` stays within machine integers.
pub fn instantiate_fits_exec(t: &Term, r: &Term, index: usize) -> (ok: bool)
    ensures
        ok == instantiate_fits(*t, *r, index as nat),
{
    let dt = depth_sat(t);
    let dr = depth_sat(r);
    let mr = max_bvar_sat(r);
    dt < usize::MAX && dr < usize::MAX && mr < usize::MAX && (index as u128) + (dt as u128)
        <= usize::MAX as u128 && (mr as u128) + (index as u128) + (dt as u128) <= usize::MAX as u128
}

/// Whether closing a variable at `index` in `t` stays within machine integers.
pub fn abstract_fits_exec(t: &Term, index: usize) -> (ok: bool)
    ensures
        ok == abstract_fits(*t, index as nat),
{
    let dt = depth_sat(t);
    let mt = max_bvar_sat(t);
    mt < usize::MAX && dt < usize::MAX && (index as u128) + (dt as u128) <= usize::MAX as u128
}

// ---------------------------------------------------------------------------
// Laws.
/// Opening a term closed over `x` with `x` itself gives the term back.
pub proof fn lemma_instantiate_abstract(t: Term, x: Unique, k: nat)
    requires
        abstract_fits(t, k),
    ensures
        spec_instantiate_at(spec_abstract_at(t, x, k), Term::FVar(x), k) == t,
    decreases t,
{
    match t {
        Term::FVar(u) => {
            if u == x {
                assert(spec_shift(Term::FVar(x), k) == Term::FVar(x));
            }
        },
        Term::App(f, a) => {
            lemma_instantiate_abstract(*f, x, k);
            lemma_instantiate_abstract(*a, x, k);
        },
        Term::Lam(_, a, b) | Term::Pi(_, a, b) | Term::Sigma(_, a, b) => {
            lemma_instantiate_abstract(*a, x, k);
            lemma_instantiate_abstract(*b, x, k + 1);
        },
        Term::Let(a, v, b) => {
            lemma_instantiate_abstract(*a, x, k);
            lemma_instantiate_abstract(*v, x, k);
            lemma_instantiate_abstract(*b, x, k + 1);
        },
        _ => {},
    }
}

/// Closing over `x` a term opened with a fresh `x` gives the term back.
pub proof fn lemma_abstract_instantiate(t: Term, x: Unique, k: nat)
    requires
        !has_fvar(t, x),
        k + depth(t) < usize::MAX,
    ensures
        spec_abstract_at(spec_instantiate_at(t, Term::FVar(x), k), x, k) == t,
    decreases t,
{
    match t {
        Term::BVar(i) => {
            if i == k {
                assert(spec_shift(Term::FVar(x), k) == Term::FVar(x));
            }
        },
        Term::App(f, a) => {
            lemma_abstract_instantiate(*f, x, k);
            lemma_abstract_instantiate(*a, x, k);
        },
        Term::Lam(_, a, b) | Term::Pi(_, a, b) | Term::Sigma(_, a, b) => {
            lemma_abstract_instantiate(*a, x, k);
            lemma_abstract_instantiate(*b, x, k + 1);
        },
        Term::Let(a, v, b) => {
            lemma_abstract_instantiate(*a, x, k);
            lemma_abstract_instantiate(*v, x, k);
            lemma_abstract_instantiate(*b, x, k + 1);
        },
        _ => {},
    }
}

/// Every bound variable of `t` is below `k`, counted outside all binders:
/// none points past the `k` binders around it.
pub open spec fn loose_below(t: Term, k: nat) -> bool
    decreases t,
{
    match t {
        Term::BVar(i) => (i as nat) < k,
        Term::App(f, a) => loose_below(*f, k) && loose_below(*a, k),
        Term::Lam(_, a, b) | Term::Pi(_, a, b) | Term::Sigma(_, a, b) => loose_below(*a, k) && loose_below(*b, k + 1),
        Term::Let(a, v, b) => loose_below(*a, k) && loose_below(*v, k) && loose_below(*b, k + 1),
        _ => true,
    }
}

/// Shifting the indices at or above `k` leaves a term that has none unchanged.
pub proof fn lemma_shift_loose_below(t: Term, offset: nat, k: nat)
    requires
        loose_below(t, k),
    ensures
        spec_shift_at(t, offset, k) == t,
    decreases t,
{
    match t {
        Term::App(f, a) => {
            lemma_shift_loose_below(*f, offset, k);
            lemma_shift_loose_below(*a, offset, k);
        },
        Term::Lam(_, a, b) | Term::Pi(_, a, b) | Term::Sigma(_, a, b) => {
            lemma_shift_loose_below(*a, offset, k);
            lemma_shift_loose_below(*b, offset, k + 1);
        },
        Term::Let(a, v, b) => {
            lemma_shift_loose_below(*a, offset, k);
            lemma_shift_loose_below(*v, offset, k);
            lemma_shift_loose_below(*b, offset, k + 1);
        },
        _ => {},
    }
}

/// Shifting by zero changes nothing.
pub proof fn lemma_shift_zero(t: Term, k: nat)
    ensures
        spec_shift_at(t, 0, k) == t,
    decreases t,
{
    match t {
        Term::App(f, a) => {
            lemma_shift_zero(*f, k);
            lemma_shift_zero(*a, k);
        },
        Term::Lam(_, a, b) | Term::Pi(_, a, b) | Term::Sigma(_, a, b) => {
            lemma_shift_zero(*a, k);
            lemma_shift_zero(*b, k + 1);
        },
        Term::Let(a, v, b) => {
            lemma_shift_zero(*a, k);
            lemma_shift_zero(*v, k);
            lemma_shift_zero(*b, k + 1);
        },
        _ => {},
    }
}

/// Two shifts above the same index add up.
pub proof fn lemma_shift_shift(t: Term, a: nat, b: nat, k: nat)
    requires
        max_bvar(t) + a + b <= usize::MAX,
    ensures
        spec_shift_at(spec_shift_at(t, a, k), b, k) == spec_shift_at(t, a + b, k),
    decreases t,
{
    match t {
        Term::App(f, x) => {
            lemma_shift_shift(*f, a, b, k);
            lemma_shift_shift(*x, a, b, k);
        },
        Term::Lam(_, x, y) | Term::Pi(_, x, y) | Term::Sigma(_, x, y) => {
            lemma_shift_shift(*x, a, b, k);
            lemma_shift_shift(*y, a, b, k + 1);
        },
        Term::Let(x, v, y) => {
            lemma_shift_shift(*x, a, b, k);
            lemma_shift_shift(*v, a, b, k);
            lemma_shift_shift(*y, a, b, k + 1);
        },
        _ => {},
    }
}

/// Closing over a variable that does not occur only renumbers indices.
pub proof fn lemma_abstract_absent(t: Term, x: Unique, k: nat)
    requires
        !has_fvar(t, x),
    ensures
        spec_abstract_at(t, x, k) == spec_shift_at(t, 1, k),
    decreases t,
{
    match t {
        Term::App(f, a) => {
            lemma_abstract_absent(*f, x, k);
            lemma_abstract_absent(*a, x, k);
        },
        Term::Lam(_, a, b) | Term::Pi(_, a, b) | Term::Sigma(_, a, b) => {
            lemma_abstract_absent(*a, x, k);
            lemma_abstract_absent(*b, x, k + 1);
        },
        Term::Let(a, v, b) => {
            lemma_abstract_absent(*a, x, k);
            lemma_abstract_absent(*v, x, k);
            lemma_abstract_absent(*b, x, k + 1);
        },
        _ => {},
    }
}

/// After closing over `x`, the variable `x` no longer occurs.
pub proof fn lemma_abstract_removes(t: Term, x: Unique, k: nat)
    ensures
        !has_fvar(spec_abstract_at(t, x, k), x),
    decreases t,
{
    match t {
        Term::App(f, a) => {
            lemma_abstract_removes(*f, x, k);
            lemma_abstract_removes(*a, x, k);
        },
        Term::Lam(_, a, b) | Term::Pi(_, a, b) | Term::Sigma(_, a, b) => {
            lemma_abstract_removes(*a, x, k);
            lemma_abstract_removes(*b, x, k + 1);
        },
        Term::Let(a, v, b) => {
            lemma_abstract_removes(*a, x, k);
            lemma_abstract_removes(*v, x, k);
            lemma_abstract_removes(*b, x, k + 1);
        },
        _ => {},
    }
}

} // verus!
