//! Core terms of the type theory: locally nameless syntax with de Bruijn
//! indices for bound variables, names for free variables and metavariables,
//! and universe levels.

use vstd::prelude::*;
use crate::ids::{ItemId, Symbol, Unique};
use crate::literals::{Literal, NumberLiteral, NumberValue};

verus! {

/// How an argument is passed to a binder.
#[derive(Debug, Clone, Copy, PartialEq, Eq, Hash, Structural)]
pub enum BinderInfo {
    Explicit,
    Implicit,
    InstanceImplicit,
    StrictImplicit,
}

/// Evidence that an error was reported; terms holding it are poisoned.
#[derive(Debug, Clone, Copy, PartialEq, Eq, Hash, Structural)]
pub struct ErrorToken(bool);

impl ErrorToken {
    /// Only the elaborator, having reported an error, makes one.
    /// The token stands for an error that was reported.
    pub closed spec fn reported(self) -> bool {
        self.0
    }

    pub(crate) fn new() -> (t: ErrorToken)
        ensures
            t.reported(),
    {
        ErrorToken(true)
    }
}

/// A universe level.
#[derive(Debug, PartialEq, Eq, Hash)]
pub enum Level {
    Zero,
    Succ(Box<Level>),
    Max(Box<Level>, Box<Level>),
    IMax(Box<Level>, Box<Level>),
    MVar(Unique),
    Param(Symbol),
}

/// A term. `BVar(i)` refers to the `i`-th enclosing binder.
#[derive(Debug, PartialEq, Eq, Hash)]
pub enum Term {
    BVar(usize),
    FVar(Unique),
    MVar(Unique),
    App(Box<Term>, Box<Term>),
    Sort(Level),
    Const(ItemId),
    Lam(BinderInfo, Box<Term>, Box<Term>),
    Pi(BinderInfo, Box<Term>, Box<Term>),
    Sigma(BinderInfo, Box<Term>, Box<Term>),
    Let(Box<Term>, Box<Term>, Box<Term>),
    Lit(Literal),
    Error(ErrorToken),
}

/// A binder opened as a free variable.
#[derive(Debug)]
pub struct FreeBinder {
    pub fvar: Unique,
    pub info: BinderInfo,
    pub ty: Term,
}

impl FreeBinder {
    pub fn new(fvar: Unique, info: BinderInfo, ty: Term) -> (b: FreeBinder)
        ensures
            b == (FreeBinder { fvar, info, ty }),
    {
        FreeBinder { fvar, info, ty }
    }
}

pub open spec fn nat_max(a: nat, b: nat) -> nat {
    if a >= b {
        a
    } else {
        b
    }
}

/// One more than the largest de Bruijn index written anywhere in `t` (0 if none).
pub open spec fn max_bvar(t: Term) -> nat
    decreases t,
{
    match t {
        Term::BVar(i) => (i + 1) as nat,
        Term::App(f, x) => nat_max(max_bvar(*f), max_bvar(*x)),
        Term::Lam(_, a, b) | Term::Pi(_, a, b) | Term::Sigma(_, a, b) => nat_max(
            max_bvar(*a),
            max_bvar(*b),
        ),
        Term::Let(a, v, b) => nat_max(max_bvar(*a), nat_max(max_bvar(*v), max_bvar(*b))),
        _ => 0,
    }
}

/// Nesting depth of binders in `t`.
pub open spec fn depth(t: Term) -> nat
    decreases t,
{
    match t {
        Term::App(f, x) => nat_max(depth(*f), depth(*x)),
        Term::Lam(_, a, b) | Term::Pi(_, a, b) | Term::Sigma(_, a, b) => nat_max(
            depth(*a),
            1 + depth(*b),
        ),
        Term::Let(a, v, b) => nat_max(depth(*a), nat_max(depth(*v), 1 + depth(*b))),
        _ => 0,
    }
}

/// Number of nodes of `t`.
pub open spec fn size(t: Term) -> nat
    decreases t,
{
    match t {
        Term::App(f, x) => 1 + size(*f) + size(*x),
        Term::Lam(_, a, b) | Term::Pi(_, a, b) | Term::Sigma(_, a, b) => 1 + size(*a) + size(*b),
        Term::Let(a, v, b) => 1 + size(*a) + size(*v) + size(*b),
        _ => 1,
    }
}

/// The free variable `x` occurs in `t`.
pub open spec fn has_fvar(t: Term, x: Unique) -> bool
    decreases t,
{
    match t {
        Term::FVar(u) => u == x,
        Term::App(f, a) => has_fvar(*f, x) || has_fvar(*a, x),
        Term::Lam(_, a, b) | Term::Pi(_, a, b) | Term::Sigma(_, a, b) => has_fvar(*a, x)
            || has_fvar(*b, x),
        Term::Let(a, v, b) => has_fvar(*a, x) || has_fvar(*v, x) || has_fvar(*b, x),
        _ => false,
    }
}

/// The metavariable `m` is written in `t` (solutions are not followed).
pub open spec fn has_mvar(t: Term, m: Unique) -> bool
    decreases t,
{
    match t {
        Term::MVar(u) => u == m,
        Term::App(f, a) => has_mvar(*f, m) || has_mvar(*a, m),
        Term::Lam(_, a, b) | Term::Pi(_, a, b) | Term::Sigma(_, a, b) => has_mvar(*a, m)
            || has_mvar(*b, m),
        Term::Let(a, v, b) => has_mvar(*a, m) || has_mvar(*v, m) || has_mvar(*b, m),
        _ => false,
    }
}

/// The term contains an error node.
pub open spec fn has_error(t: Term) -> bool
    decreases t,
{
    match t {
        Term::Error(_) => true,
        Term::App(f, a) => has_error(*f) || has_error(*a),
        Term::Lam(_, a, b) | Term::Pi(_, a, b) | Term::Sigma(_, a, b) => has_error(*a) || has_error(
            *b,
        ),
        Term::Let(a, v, b) => has_error(*a) || has_error(*v) || has_error(*b),
        _ => false,
    }
}

/// Two literals with the same content.
pub open spec fn literal_same(a: Literal, b: Literal) -> bool {
    match (a, b) {
        (Literal::Text(s), Literal::Text(t)) => s@ == t@,
        (Literal::Numeric(m), Literal::Numeric(n)) => m.suffix == n.suffix && match (m.value, n.value) {
            (NumberValue::Integer(x), NumberValue::Integer(y)) => x@ == y@,
            (
                NumberValue::Float { numer: a, denom: b },
                NumberValue::Float { numer: c, denom: d },
            ) => a@ == c@ && b@ == d@,
            _ => false,
        },
        _ => false,
    }
}

/// Two terms with the same structure, leaves and literal contents.
pub open spec fn term_same(a: Term, b: Term) -> bool
    decreases a,
{
    match (a, b) {
        (Term::App(f1, x1), Term::App(f2, x2)) => term_same(*f1, *f2) && term_same(*x1, *x2),
        (Term::Lam(i1, a1, b1), Term::Lam(i2, a2, b2)) => i1 == i2 && term_same(*a1, *a2)
            && term_same(*b1, *b2),
        (Term::Pi(i1, a1, b1), Term::Pi(i2, a2, b2)) => i1 == i2 && term_same(*a1, *a2)
            && term_same(*b1, *b2),
        (Term::Sigma(i1, a1, b1), Term::Sigma(i2, a2, b2)) => i1 == i2 && term_same(*a1, *a2)
            && term_same(*b1, *b2),
        (Term::Let(a1, v1, b1), Term::Let(a2, v2, b2)) => term_same(*a1, *a2) && term_same(*v1, *v2)
            && term_same(*b1, *b2),
        (Term::Lit(l1), Term::Lit(l2)) => literal_same(l1, l2),
        (Term::App(..), _) | (Term::Lam(..), _) | (Term::Pi(..), _) | (Term::Sigma(..), _) | (
            Term::Let(..),
            _,
        ) | (Term::Lit(..), _) => false,
        _ => a == b,
    }
}

/// Equal terms are the same.
pub proof fn lemma_term_same_refl(t: Term)
    ensures
        term_same(t, t),
    decreases t,
{
    match t {
        Term::App(f, x) => {
            lemma_term_same_refl(*f);
            lemma_term_same_refl(*x);
        },
        Term::Lam(_, a, b) | Term::Pi(_, a, b) | Term::Sigma(_, a, b) => {
            lemma_term_same_refl(*a);
            lemma_term_same_refl(*b);
        },
        Term::Let(a, v, b) => {
            lemma_term_same_refl(*a);
            lemma_term_same_refl(*v);
            lemma_term_same_refl(*b);
        },
        _ => {},
    }
}

fn string_copy(s: &String) -> (r: String)
    ensures
        r == *s,
{
    s.clone()
}

/// A copy of a literal.
pub fn literal_copy(l: &Literal) -> (r: Literal)
    ensures
        r == *l,
{
    match l {
        Literal::Text(s) => Literal::Text(string_copy(s)),
        Literal::Numeric(n) => {
            let value = match &n.value {
                NumberValue::Integer(s) => NumberValue::Integer(string_copy(s)),
                NumberValue::Float { numer, denom } => NumberValue::Float {
                    numer: string_copy(numer),
                    denom: string_copy(denom),
                },
            };
            Literal::Numeric(NumberLiteral { value, suffix: n.suffix })
        },
    }
}

/// Compares two literals by content.
pub fn literal_eq(a: &Literal, b: &Literal) -> (r: bool)
    ensures
        r == literal_same(*a, *b),
{
    match (a, b) {
        (Literal::Text(s), Literal::Text(t)) => *s == *t,
        (Literal::Numeric(m), Literal::Numeric(n)) => {
            let same_suffix = match (m.suffix, n.suffix) {
                (Some(x), Some(y)) => x == y,
                (None, None) => true,
                _ => false,
            };
            same_suffix && match (&m.value, &n.value) {
                (NumberValue::Integer(x), NumberValue::Integer(y)) => *x == *y,
                (
                    NumberValue::Float { numer: a, denom: b },
                    NumberValue::Float { numer: c, denom: d },
                ) => *a == *c && *b == *d,
                _ => false,
            }
        },
        _ => false,
    }
}

impl Level {
    /// A copy of this level.
    pub fn copy(&self) -> (r: Level)
        ensures
            r == *self,
        decreases self,
    {
        match self {
            Level::Zero => Level::Zero,
            Level::Succ(a) => Level::Succ(Box::new(a.copy())),
            Level::Max(a, b) => Level::Max(Box::new(a.copy()), Box::new(b.copy())),
            Level::IMax(a, b) => Level::IMax(Box::new(a.copy()), Box::new(b.copy())),
            Level::MVar(u) => Level::MVar(*u),
            Level::Param(s) => Level::Param(*s),
        }
    }

    pub fn zero() -> (l: Level)
        ensures
            l == Level::Zero,
    {
        Level::Zero
    }

    pub fn one() -> (l: Level)
        ensures
            l == Level::Succ(Box::new(Level::Zero)),
    {
        Level::Succ(Box::new(Level::Zero))
    }

    pub fn two() -> (l: Level)
        ensures
            l == Level::Succ(Box::new(Level::Succ(Box::new(Level::Zero)))),
    {
        Level::Succ(Box::new(Level::one()))
    }

    pub fn succ(inner: Level) -> (l: Level)
        ensures
            l == Level::Succ(Box::new(inner)),
    {
        Level::Succ(Box::new(inner))
    }

    pub fn mvar(u: Unique) -> (l: Level)
        ensures
            l == Level::MVar(u),
    {
        Level::MVar(u)
    }
}

impl Term {
    /// A copy of this term.
    pub fn copy(&self) -> (r: Term)
        ensures
            r == *self,
        decreases self,
    {
        match self {
            Term::BVar(i) => Term::BVar(*i),
            Term::FVar(u) => Term::FVar(*u),
            Term::MVar(u) => Term::MVar(*u),
            Term::App(f, x) => Term::App(Box::new(f.copy()), Box::new(x.copy())),
            Term::Sort(l) => Term::Sort(l.copy()),
            Term::Const(c) => Term::Const(*c),
            Term::Lam(i, a, b) => Term::Lam(*i, Box::new(a.copy()), Box::new(b.copy())),
            Term::Pi(i, a, b) => Term::Pi(*i, Box::new(a.copy()), Box::new(b.copy())),
            Term::Sigma(i, a, b) => Term::Sigma(*i, Box::new(a.copy()), Box::new(b.copy())),
            Term::Let(a, v, b) => Term::Let(
                Box::new(a.copy()),
                Box::new(v.copy()),
                Box::new(b.copy()),
            ),
            Term::Lit(l) => Term::Lit(literal_copy(l)),
            Term::Error(e) => Term::Error(*e),
        }
    }

    pub fn bvar(i: usize) -> (t: Term)
        ensures
            t == Term::BVar(i),
    {
        Term::BVar(i)
    }

    pub fn fvar(u: Unique) -> (t: Term)
        ensures
            t == Term::FVar(u),
    {
        Term::FVar(u)
    }

    pub fn mvar(u: Unique) -> (t: Term)
        ensures
            t == Term::MVar(u),
    {
        Term::MVar(u)
    }

    pub fn app(f: Term, x: Term) -> (t: Term)
        ensures
            t == Term::App(Box::new(f), Box::new(x)),
    {
        Term::App(Box::new(f), Box::new(x))
    }

    pub fn sort(level: Level) -> (t: Term)
        ensures
            t == Term::Sort(level),
    {
        Term::Sort(level)
    }

    pub fn constant(item: ItemId) -> (t: Term)
        ensures
            t == Term::Const(item),
    {
        Term::Const(item)
    }

    pub fn lam(info: BinderInfo, ty: Term, body: Term) -> (t: Term)
        ensures
            t == Term::Lam(info, Box::new(ty), Box::new(body)),
    {
        Term::Lam(info, Box::new(ty), Box::new(body))
    }

    pub fn pi(info: BinderInfo, ty: Term, body: Term) -> (t: Term)
        ensures
            t == Term::Pi(info, Box::new(ty), Box::new(body)),
    {
        Term::Pi(info, Box::new(ty), Box::new(body))
    }

    pub fn sigma(info: BinderInfo, ty: Term, body: Term) -> (t: Term)
        ensures
            t == Term::Sigma(info, Box::new(ty), Box::new(body)),
    {
        Term::Sigma(info, Box::new(ty), Box::new(body))
    }

    pub fn let_(ty: Term, value: Term, body: Term) -> (t: Term)
        ensures
            t == Term::Let(Box::new(ty), Box::new(value), Box::new(body)),
    {
        Term::Let(Box::new(ty), Box::new(value), Box::new(body))
    }

    pub fn lit(lit: Literal) -> (t: Term)
        ensures
            t == Term::Lit(lit),
    {
        Term::Lit(lit)
    }

    /// The poisoned term that stands for something already reported as an error.
    pub fn error(token: ErrorToken) -> (t: Term)
        ensures
            t == Term::Error(token),
    {
        Term::Error(token)
    }

    /// `Sort 1`, the type of ordinary types.
    pub fn type0() -> (t: Term)
        ensures
            t == Term::Sort(Level::Succ(Box::new(Level::Zero))),
    {
        Term::Sort(Level::one())
    }

    /// Whether an error node occurs in this term.
    pub fn has_error(&self) -> (r: bool)
        ensures
            r == has_error(*self),
        decreases self,
    {
        match self {
            Term::Error(_) => true,
            Term::App(f, a) => f.has_error() || a.has_error(),
            Term::Lam(_, a, b) | Term::Pi(_, a, b) | Term::Sigma(_, a, b) => a.has_error()
                || b.has_error(),
            Term::Let(a, v, b) => a.has_error() || v.has_error() || b.has_error(),
            _ => false,
        }
    }
}

/// Structural comparison of levels.
pub fn level_eq(a: &Level, b: &Level) -> (r: bool)
    ensures
        r == (*a == *b),
    decreases a,
{
    match (a, b) {
        (Level::Zero, Level::Zero) => true,
        (Level::Succ(x), Level::Succ(y)) => level_eq(x, y),
        (Level::Max(x1, x2), Level::Max(y1, y2)) => level_eq(x1, y1) && level_eq(x2, y2),
        (Level::IMax(x1, x2), Level::IMax(y1, y2)) => level_eq(x1, y1) && level_eq(x2, y2),
        (Level::MVar(u), Level::MVar(v)) => u == v,
        (Level::Param(u), Level::Param(v)) => u == v,
        _ => false,
    }
}

/// Structural comparison of terms, literals by content.
pub fn term_eq(a: &Term, b: &Term) -> (r: bool)
    ensures
        r == term_same(*a, *b),
    decreases a,
{
    match (a, b) {
        (Term::BVar(i), Term::BVar(j)) => i == j,
        (Term::FVar(u), Term::FVar(v)) => u == v,
        (Term::MVar(u), Term::MVar(v)) => u == v,
        (Term::App(f1, x1), Term::App(f2, x2)) => term_eq(f1, f2) && term_eq(x1, x2),
        (Term::Sort(l1), Term::Sort(l2)) => level_eq(l1, l2),
        (Term::Const(c1), Term::Const(c2)) => c1 == c2,
        (Term::Lam(i1, a1, b1), Term::Lam(i2, a2, b2)) => *i1 == *i2 && term_eq(a1, a2) && term_eq(
            b1,
            b2,
        ),
        (Term::Pi(i1, a1, b1), Term::Pi(i2, a2, b2)) => *i1 == *i2 && term_eq(a1, a2) && term_eq(
            b1,
            b2,
        ),
        (Term::Sigma(i1, a1, b1), Term::Sigma(i2, a2, b2)) => *i1 == *i2 && term_eq(a1, a2)
            && term_eq(b1, b2),
        (Term::Let(a1, v1, b1), Term::Let(a2, v2, b2)) => term_eq(a1, a2) && term_eq(v1, v2)
            && term_eq(b1, b2),
        (Term::Lit(l1), Term::Lit(l2)) => literal_eq(l1, l2),
        (Term::Error(e1), Term::Error(e2)) => e1 == e2,
        _ => false,
    }
}

/// Peels the leading `Pi` binders: the final codomain and each binder's info and domain.
pub open spec fn spec_uncurry(t: Term) -> (Term, Seq<(BinderInfo, Term)>)
    decreases t,
{
    match t {
        Term::Pi(info, param, body) => {
            let (res, args) = spec_uncurry(*body);
            (res, seq![(info, *param)] + args)
        },
        _ => (t, Seq::empty()),
    }
}

/// Splits a function type into its result type and parameters, outermost first.
pub fn uncurry(term: &Term) -> (r: (Term, Vec<(BinderInfo, Term)>))
    ensures
        r.0 == spec_uncurry(*term).0,
        r.1@ == spec_uncurry(*term).1,
    decreases term,
{
    match term {
        Term::Pi(info, param, body) => {
            let (res, rest) = uncurry(body);
            let mut args: Vec<(BinderInfo, Term)> = Vec::new();
            args.push((*info, param.copy()));
            let mut i: usize = 0;
            while i < rest.len()
                invariant
                    i <= rest@.len(),
                    args@ == seq![(*info, **param)] + rest@.take(i as int),
                decreases rest.len() - i,
            {
                let (bi, ty) = &rest[i];
                args.push((*bi, ty.copy()));
                i = i + 1;
                assert(args@ =~= seq![(*info, **param)] + rest@.take(i as int));
            }
            assert(rest@.take(rest@.len() as int) =~= rest@);
            (res, args)
        },
        _ => (term.copy(), Vec::new()),
    }
}


fn sat_max(a: usize, b: usize) -> (r: usize)
    ensures
        r == nat_max(a as nat, b as nat),
{
    if a >= b {
        a
    } else {
        b
    }
}

/// `max_bvar(t)`, saturating at `usize::MAX`.
pub fn max_bvar_sat(t: &Term) -> (r: usize)
    ensures
        r as nat == if max_bvar(*t) < usize::MAX { max_bvar(*t) } else { usize::MAX as nat },
    decreases t,
{
    match t {
        Term::BVar(i) => if *i < usize::MAX {
            *i + 1
        } else {
            usize::MAX
        },
        Term::App(f, x) => sat_max(max_bvar_sat(f), max_bvar_sat(x)),
        Term::Lam(_, a, b) | Term::Pi(_, a, b) | Term::Sigma(_, a, b) => sat_max(
            max_bvar_sat(a),
            max_bvar_sat(b),
        ),
        Term::Let(a, v, b) => sat_max(max_bvar_sat(a), sat_max(max_bvar_sat(v), max_bvar_sat(b))),
        _ => 0,
    }
}

/// `depth(t)`, saturating at `usize::MAX`.
pub fn depth_sat(t: &Term) -> (r: usize)
    ensures
        r as nat == if depth(*t) < usize::MAX { depth(*t) } else { usize::MAX as nat },
    decreases t,
{
    match t {
        Term::App(f, x) => sat_max(depth_sat(f), depth_sat(x)),
        Term::Lam(_, a, b) | Term::Pi(_, a, b) | Term::Sigma(_, a, b) => {
            let db = depth_sat(b);
            sat_max(depth_sat(a), if db < usize::MAX { db + 1 } else { usize::MAX })
        },
        Term::Let(a, v, b) => {
            let db = depth_sat(b);
            sat_max(depth_sat(a), sat_max(depth_sat(v), if db < usize::MAX { db + 1 } else { usize::MAX }))
        },
        _ => 0,
    }
}


/// The function type with parameters `args`, outermost first, and result `ret`.
pub open spec fn rebuild_pis(ret: Term, args: Seq<(BinderInfo, Term)>) -> Term
    decreases args.len(),
{
    if args.len() == 0 {
        ret
    } else {
        Term::Pi(args[0].0, Box::new(args[0].1), Box::new(rebuild_pis(ret, args.drop_first())))
    }
}

/// Number of function types at the head of `t`.
pub open spec fn leading_pis(t: Term) -> nat
    decreases t,
{
    match t {
        Term::Pi(_, _, b) => 1 + leading_pis(*b),
        _ => 0,
    }
}

/// Splitting a function type and putting its parameters back around the
/// result gives it back; the result is no function type, and there is one
/// parameter per leading binder.
pub proof fn lemma_uncurry_rebuild(t: Term)
    ensures
        !(spec_uncurry(t).0 is Pi),
        spec_uncurry(t).1.len() == leading_pis(t),
        rebuild_pis(spec_uncurry(t).0, spec_uncurry(t).1) == t,
    decreases t,
{
    if let Term::Pi(info, param, body) = t {
        lemma_uncurry_rebuild(*body);
        let (res, args) = spec_uncurry(*body);
        assert((seq![(info, *param)] + args).drop_first() =~= args);
    }
}

} // verus!
