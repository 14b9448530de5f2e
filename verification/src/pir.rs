//! Runtime types: what an elaborated type becomes once proofs, universes and
//! type parameters are erased into the shapes a program's values take.

use vstd::prelude::*;
use crate::ctx::REDUCTION_BUDGET;
use crate::debug::{push_decimal, symbol_text, term_debug, write_symbol};
use crate::env::{spec_def_body, Env};
use crate::ids::{ItemId, ItemKind, SymbolTable};
use crate::reduce::{instantiate_many, spec_instantiate_many, spec_spine, spec_whnf, spine_of, whnf};
use crate::subst::{instantiate_fits, spec_instantiate_at, spec_shift_at};
use crate::term::Term;
use crate::text::{nat_decimal, push_str, string_from_chars};

verus! {

/// A runtime type.
#[derive(Debug, PartialEq, Eq, Hash)]
pub enum Type {
    Int8,
    Int16,
    Int32,
    Int64,
    UInt8,
    UInt16,
    UInt32,
    UInt64,
    Float32,
    Float64,
    Bool,
    Char,
    /// The type parameter with this number.
    Param(usize),
    Array(Box<Type>, usize),
    Record(Vec<Type>),
    /// An inductive applied to its arguments.
    Adt { id: ItemId, args: Vec<TypeArg> },
    Function { ret: Box<Type>, params: Vec<Type> },
    /// A type the lowering does not handle yet, with what it was.
    Todo(String),
}

/// An argument of an inductive: a type, or a value it is indexed by.
#[derive(Debug, PartialEq, Eq, Hash)]
pub enum TypeArg {
    Type(Type),
    Index(Term),
}

/// What the specifications see of a runtime type.
pub enum TypeView {
    Int8,
    Int16,
    Int32,
    Int64,
    UInt8,
    UInt16,
    UInt32,
    UInt64,
    Float32,
    Float64,
    Bool,
    Char,
    Param(nat),
    Array(Box<TypeView>, nat),
    Record(Seq<TypeView>),
    Adt { id: ItemId, args: Seq<ArgView> },
    Function { ret: Box<TypeView>, params: Seq<TypeView> },
    Todo(Seq<char>),
}

/// What the specifications see of an argument of an inductive.
pub enum ArgView {
    Type(TypeView),
    Index(Term),
}

/// The view of a runtime type.
pub open spec fn type_view(t: Type) -> TypeView
    decreases t,
{
    match t {
        Type::Int8 => TypeView::Int8,
        Type::Int16 => TypeView::Int16,
        Type::Int32 => TypeView::Int32,
        Type::Int64 => TypeView::Int64,
        Type::UInt8 => TypeView::UInt8,
        Type::UInt16 => TypeView::UInt16,
        Type::UInt32 => TypeView::UInt32,
        Type::UInt64 => TypeView::UInt64,
        Type::Float32 => TypeView::Float32,
        Type::Float64 => TypeView::Float64,
        Type::Bool => TypeView::Bool,
        Type::Char => TypeView::Char,
        Type::Param(p) => TypeView::Param(p as nat),
        Type::Array(e, n) => TypeView::Array(Box::new(type_view(*e)), n as nat),
        Type::Record(fs) => TypeView::Record(types_view(fs@)),
        Type::Adt { id, args } => TypeView::Adt { id, args: args_view(args@) },
        Type::Function { ret, params } => TypeView::Function {
            ret: Box::new(type_view(*ret)),
            params: types_view(params@),
        },
        Type::Todo(s) => TypeView::Todo(s@),
    }
}

/// The views of a sequence of runtime types.
pub open spec fn types_view(ts: Seq<Type>) -> Seq<TypeView>
    decreases ts,
{
    if ts.len() == 0 {
        Seq::empty()
    } else {
        types_view(ts.drop_last()).push(type_view(ts.last()))
    }
}

/// The view of an argument of an inductive.
pub open spec fn arg_view(a: TypeArg) -> ArgView
    decreases a,
{
    match a {
        TypeArg::Type(t) => ArgView::Type(type_view(t)),
        TypeArg::Index(i) => ArgView::Index(i),
    }
}

/// The views of a sequence of arguments.
pub open spec fn args_view(args: Seq<TypeArg>) -> Seq<ArgView>
    decreases args,
{
    if args.len() == 0 {
        Seq::empty()
    } else {
        args_view(args.drop_last()).push(arg_view(args.last()))
    }
}

/// The view of a runtime type that may be missing.
pub open spec fn opt_type_view(r: Option<Type>) -> Option<TypeView> {
    match r {
        Some(t) => Some(type_view(t)),
        None => None,
    }
}

/// What a binder in scope of a type stands for at runtime.
#[derive(Debug, Clone, Copy, PartialEq, Eq, Structural)]
pub enum Binder {
    /// The type parameter with this number.
    TypeParam(usize),
    /// A value the type depends on.
    ValueIndex,
}

/// How an inductive takes one of its arguments.
#[derive(Debug, Clone, Copy, PartialEq, Eq, Structural)]
pub enum ArgKind {
    Type,
    Index,
}

/// A term that may stand in a type: it holds no literal, and every constant
/// is one of the first `n` items.
pub open spec fn type_term(t: Term, n: nat) -> bool
    decreases t,
{
    match t {
        Term::Lit(_) => false,
        Term::Const(c) => (c.0 as nat) < n,
        Term::App(f, x) => type_term(*f, n) && type_term(*x, n),
        Term::Lam(_, a, b) | Term::Pi(_, a, b) | Term::Sigma(_, a, b) => type_term(*a, n) && type_term(*b, n),
        Term::Let(a, v, b) => type_term(*a, n) && type_term(*v, n) && type_term(*b, n),
        _ => true,
    }
}

/// Every body and signature of `env`, and every parameter type in
/// `params`, may stand in a type; `params` has an entry for every item.
pub open spec fn types_ok(env: Env, params: Seq<Vec<Term>>) -> bool {
    let n = env.items@.len();
    &&& params.len() == n
    &&& env.signatures@.len() == n
    &&& forall|k: int| 0 <= k < env.bodies@.len() ==> (#[trigger] env.bodies@[k] matches Some(b) ==> type_term(b, n))
    &&& forall|k: int| 0 <= k < env.signatures@.len() ==> type_term(#[trigger] env.signatures@[k], n)
    &&& forall|k: int, j: int| 0 <= k < params.len() && 0 <= j < params[k]@.len() ==> type_term(
        #[trigger] params[k]@[j],
        n,
    )
}

pub proof fn lemma_shift_type_term(t: Term, off: nat, k: nat, n: nat)
    requires
        type_term(t, n),
    ensures
        type_term(spec_shift_at(t, off, k), n),
    decreases t,
{
    match t {
        Term::App(f, x) => {
            lemma_shift_type_term(*f, off, k, n);
            lemma_shift_type_term(*x, off, k, n);
        },
        Term::Lam(_, a, b) | Term::Pi(_, a, b) | Term::Sigma(_, a, b) => {
            lemma_shift_type_term(*a, off, k, n);
            lemma_shift_type_term(*b, off, k + 1, n);
        },
        Term::Let(a, v, b) => {
            lemma_shift_type_term(*a, off, k, n);
            lemma_shift_type_term(*v, off, k, n);
            lemma_shift_type_term(*b, off, k + 1, n);
        },
        _ => {},
    }
}

pub proof fn lemma_instantiate_type_term(t: Term, r: Term, k: nat, n: nat)
    requires
        type_term(t, n),
        type_term(r, n),
    ensures
        type_term(spec_instantiate_at(t, r, k), n),
    decreases t,
{
    match t {
        Term::BVar(i) => {
            if i == k && k > 0 {
                lemma_shift_type_term(r, k, 0, n);
            }
        },
        Term::App(f, x) => {
            lemma_instantiate_type_term(*f, r, k, n);
            lemma_instantiate_type_term(*x, r, k, n);
        },
        Term::Lam(_, a, b) | Term::Pi(_, a, b) | Term::Sigma(_, a, b) => {
            lemma_instantiate_type_term(*a, r, k, n);
            lemma_instantiate_type_term(*b, r, k + 1, n);
        },
        Term::Let(a, v, b) => {
            lemma_instantiate_type_term(*a, r, k, n);
            lemma_instantiate_type_term(*v, r, k, n);
            lemma_instantiate_type_term(*b, r, k + 1, n);
        },
        _ => {},
    }
}

/// Every body of `bodies` may stand in a type.
pub open spec fn bodies_ok(bodies: Seq<Option<Term>>, n: nat) -> bool {
    forall|k: int| 0 <= k < bodies.len() ==> (#[trigger] bodies[k] matches Some(b) ==> type_term(b, n))
}

pub proof fn lemma_whnf_type_term(bodies: Seq<Option<Term>>, t: Term, fuel: nat, n: nat)
    requires
        bodies_ok(bodies, n),
        type_term(t, n),
    ensures
        spec_whnf(bodies, Seq::empty(), t, fuel) matches Some(w) ==> type_term(w, n),
    decreases fuel,
{
    if fuel > 0 {
        match t {
            Term::App(f, x) => {
                lemma_whnf_type_term(bodies, *f, (fuel - 1) as nat, n);
                match spec_whnf(bodies, Seq::empty(), *f, (fuel - 1) as nat) {
                    Some(Term::Lam(_, _, body)) => {
                        if instantiate_fits(*body, *x, 0) {
                            lemma_instantiate_type_term(*body, *x, 0, n);
                            lemma_whnf_type_term(bodies, spec_instantiate_at(*body, *x, 0), (fuel - 1) as nat, n);
                        }
                    },
                    _ => {},
                }
            },
            Term::Let(_, v, body) => {
                if instantiate_fits(*body, *v, 0) {
                    lemma_instantiate_type_term(*body, *v, 0, n);
                    lemma_whnf_type_term(bodies, spec_instantiate_at(*body, *v, 0), (fuel - 1) as nat, n);
                }
            },
            Term::Const(c) => {
                if let Some(b) = spec_def_body(bodies, c) {
                    assert(bodies[c.0 as int] == Some(b));
                    lemma_whnf_type_term(bodies, b, (fuel - 1) as nat, n);
                }
            },
            _ => {},
        }
    }
}

pub proof fn lemma_spine_type_term(t: Term, n: nat)
    requires
        type_term(t, n),
    ensures
        type_term(spec_spine(t).0, n),
        forall|k: int| 0 <= k < spec_spine(t).1.len() ==> type_term(#[trigger] spec_spine(t).1[k], n),
    decreases t,
{
    match t {
        Term::App(f, x) => {
            lemma_spine_type_term(*f, n);
            let (h, args) = spec_spine(*f);
            assert forall|k: int| 0 <= k < args.push(*x).len() implies type_term(#[trigger] args.push(*x)[k], n) by {
                if k < args.len() {
                    assert(args.push(*x)[k] == args[k]);
                }
            }
        },
        _ => {},
    }
}

pub proof fn lemma_instantiate_many_type_term(bodies: Seq<Option<Term>>, t: Term, args: Seq<Term>, fuel: nat, n: nat)
    requires
        bodies_ok(bodies, n),
        type_term(t, n),
        forall|k: int| 0 <= k < args.len() ==> type_term(#[trigger] args[k], n),
    ensures
        spec_instantiate_many(bodies, t, args, fuel) matches Some(w) ==> type_term(w, n),
    decreases args.len(),
{
    lemma_whnf_type_term(bodies, t, fuel, n);
    if args.len() > 0 {
        assert forall|k: int| 0 <= k < args.drop_first().len() implies type_term(#[trigger] args.drop_first()[k], n) by {
            assert(args.drop_first()[k] == args[k + 1]);
        }
        assert(type_term(args[0], n));
        match spec_whnf(bodies, Seq::empty(), t, fuel) {
            Some(w) => match w {
                Term::Lam(_, _, body) => {
                    if instantiate_fits(*body, args[0], 0) {
                        lemma_instantiate_type_term(*body, args[0], 0, n);
                        lemma_instantiate_many_type_term(bodies, spec_instantiate_at(*body, args[0], 0), args.drop_first(), fuel, n);
                    }
                },
                _ => {
                    lemma_instantiate_many_type_term(bodies, Term::App(Box::new(w), Box::new(args[0])), args.drop_first(), fuel, n);
                },
            },
            None => {},
        }
    }
}

/// `t` is the runtime type of bound variable `index` under `binders`,
/// innermost last: the parameter it stands for, or a placeholder saying
/// that it is a value or unbound.
pub open spec fn is_bvar_type(binders: Seq<Binder>, index: nat, t: Type) -> bool {
    if index < binders.len() {
        match binders[binders.len() - 1 - index] {
            Binder::TypeParam(p) => t == Type::Param(p),
            Binder::ValueIndex => t matches Type::Todo(s) && s@ == "dependent value #"@ + nat_decimal(index),
        }
    } else {
        t matches Type::Todo(s) && s@ == "unbound #"@ + nat_decimal(index)
    }
}

/// A function type in `r` has at least one runtime parameter.
pub open spec fn params_present(r: Option<Type>) -> bool {
    r matches Some(Type::Function { params: ps, .. }) ==> ps@.len() > 0
}

/// `r` is what lowering an inductive `id` gives: nothing, a placeholder, or `id` applied.
pub open spec fn adt_of(r: Option<Type>, id: ItemId) -> bool {
    match r {
        None => true,
        Some(Type::Todo(_)) => true,
        Some(Type::Adt { id: i, .. }) => i == id,
        _ => false,
    }
}

/// The scope of a lowering: the binders in scope, innermost last, and the
/// number of the next type parameter.
pub struct Scope {
    pub binders: Seq<Binder>,
    pub next: nat,
}

/// The number after type parameter `n`; the count stops at the largest
/// `usize`.
pub open spec fn next_param(n: nat) -> nat {
    if n < usize::MAX {
        n + 1
    } else {
        n
    }
}

/// `sc` with a value index bound.
pub open spec fn bind_value(sc: Scope) -> Scope {
    Scope { binders: sc.binders.push(Binder::ValueIndex), next: sc.next }
}

/// `sc` with a fresh type parameter bound.
pub open spec fn bind_param(sc: Scope) -> Scope {
    Scope { binders: sc.binders.push(Binder::TypeParam(sc.next as usize)), next: next_param(sc.next) }
}

/// The runtime type of bound variable `index` under `binders`.
pub open spec fn bvar_view(binders: Seq<Binder>, index: nat) -> TypeView {
    if index < binders.len() {
        match binders[binders.len() - 1 - index] {
            Binder::TypeParam(p) => TypeView::Param(p as nat),
            Binder::ValueIndex => TypeView::Todo("dependent value #"@ + nat_decimal(index)),
        }
    } else {
        TypeView::Todo("unbound #"@ + nat_decimal(index))
    }
}

/// The placeholder for a lowering that ran out of steps.
pub open spec fn out_of_steps() -> TypeView {
    TypeView::Todo("type lowering ran out of steps"@)
}

/// The runtime type of `ty` in scope `sc` within `fuel` steps, and the scope
/// afterwards: reduced to weak head normal form, a bound variable is what
/// its binder stands for, an applied constant is lowered as such, a
/// function type as such, a universe has none, and anything else is a
/// placeholder that shows it.
pub open spec fn spec_lower_type(
    env: Env,
    params: Seq<Vec<Term>>,
    names: Seq<Seq<char>>,
    sc: Scope,
    ty: Term,
    fuel: nat,
) -> (Option<TypeView>, Scope)
    decreases fuel, 1nat, 0nat,
{
    if fuel == 0 {
        (Some(out_of_steps()), sc)
    } else {
        let w = reduced(env, ty);
        let h = spec_spine(w).0;
        let args = spec_spine(w).1;
        match h {
            Term::BVar(i) => if args.len() == 0 {
                (Some(bvar_view(sc.binders, i as nat)), sc)
            } else {
                (Some(TypeView::Todo(term_debug(env.items@, names, w))), sc)
            },
            Term::Const(id) => spec_lower_const(env, params, names, sc, id, args, (fuel - 1) as nat),
            Term::Pi(..) => spec_lower_pi(env, params, names, sc, w, (fuel - 1) as nat),
            Term::Sort(_) => (None, sc),
            Term::Lit(_) => (None, sc),
            _ => (Some(TypeView::Todo(term_debug(env.items@, names, w))), sc),
        }
    }
}

/// Constant `id` applied to `args`: an inductive given exactly its
/// arguments, each lowered by how it takes it; one given fewer has no
/// runtime type and one given more is a placeholder; a definition is
/// expanded, or a placeholder where it has no body; a constructor has none.
pub open spec fn spec_lower_const(
    env: Env,
    params: Seq<Vec<Term>>,
    names: Seq<Seq<char>>,
    sc: Scope,
    id: ItemId,
    args: Seq<Term>,
    fuel: nat,
) -> (Option<TypeView>, Scope)
    decreases fuel, 6nat, 0nat,
{
    match env.items@[id.0 as int].kind {
        ItemKind::Inductive => {
            let kinds = spec_arg_kinds(env, params, names, id, fuel);
            if args.len() < kinds.len() {
                (None, sc)
            } else if args.len() > kinds.len() {
                (Some(TypeView::Todo("overapplied inductive"@)), sc)
            } else {
                let r = spec_lower_args(env, params, names, sc, args, kinds, args.len(), fuel);
                (Some(TypeView::Adt { id, args: r.0 }), r.1)
            }
        },
        ItemKind::Def => match spec_def_body(env.bodies@, id) {
            None => (Some(TypeView::Todo("opaque def "@ + symbol_text(names, env.items@[id.0 as int].name))), sc),
            Some(body) => match spec_instantiate_many(env.bodies@, body, args, REDUCTION_BUDGET as nat) {
                Some(e) => spec_lower_type(env, params, names, sc, e, fuel),
                None => (Some(out_of_steps()), sc),
            },
        },
        ItemKind::Constructor => (None, sc),
    }
}

/// The first `n` arguments lowered in turn, each as `kinds` says.
pub open spec fn spec_lower_args(
    env: Env,
    params: Seq<Vec<Term>>,
    names: Seq<Seq<char>>,
    sc: Scope,
    args: Seq<Term>,
    kinds: Seq<ArgKind>,
    n: nat,
    fuel: nat,
) -> (Seq<ArgView>, Scope)
    decreases fuel, 5nat, n,
{
    if n == 0 {
        (Seq::empty(), sc)
    } else {
        let prev = spec_lower_args(env, params, names, sc, args, kinds, (n - 1) as nat, fuel);
        let a = spec_lower_type_arg(env, params, names, prev.1, args[n - 1], kinds[n - 1], fuel);
        (prev.0.push(a.0), a.1)
    }
}

/// An argument of an inductive: a type lowered, a placeholder where it has
/// no runtime type, or a value reduced.
pub open spec fn spec_lower_type_arg(
    env: Env,
    params: Seq<Vec<Term>>,
    names: Seq<Seq<char>>,
    sc: Scope,
    arg: Term,
    kind: ArgKind,
    fuel: nat,
) -> (ArgView, Scope)
    decreases fuel, 4nat, 0nat,
{
    match kind {
        ArgKind::Type => {
            let r = spec_lower_type(env, params, names, sc, arg, fuel);
            (ArgView::Type(match r.0 {
                Some(t) => t,
                None => TypeView::Todo("erased type argument "@ + term_debug(env.items@, names, arg)),
            }), r.1)
        },
        ArgKind::Index => (ArgView::Index(reduced(env, arg)), sc),
    }
}

/// How inductive `id` takes each argument: its parameters, then the binders
/// of its type, lowered in a scope of their own.
pub open spec fn spec_arg_kinds(
    env: Env,
    params: Seq<Vec<Term>>,
    names: Seq<Seq<char>>,
    id: ItemId,
    fuel: nat,
) -> Seq<ArgKind>
    decreases fuel, 4nat, 0nat,
{
    let ps = params[id.0 as int]@;
    let first = spec_formals(env, params, names, ps, ps.len(), fuel);
    let rest = spec_formal_pis(
        env,
        params,
        names,
        first.1,
        reduced(env, env.signatures@[id.0 as int]),
        fuel,
        fuel,
    );
    first.0 + rest.0
}

/// The first `n` of `ps` brought into scope in turn, from an empty scope.
pub open spec fn spec_formals(
    env: Env,
    params: Seq<Vec<Term>>,
    names: Seq<Seq<char>>,
    ps: Seq<Term>,
    n: nat,
    fuel: nat,
) -> (Seq<ArgKind>, Scope)
    decreases fuel, 3nat, n,
{
    if n == 0 {
        (Seq::empty(), Scope { binders: Seq::empty(), next: 0 })
    } else {
        let prev = spec_formals(env, params, names, ps, (n - 1) as nat, fuel);
        let k = spec_push_formal(env, params, names, prev.1, ps[n - 1], fuel);
        (prev.0.push(k.0), k.1)
    }
}

/// The binders of the function type `cur` brought into scope in turn, at
/// most `steps` of them.
pub open spec fn spec_formal_pis(
    env: Env,
    params: Seq<Vec<Term>>,
    names: Seq<Seq<char>>,
    sc: Scope,
    cur: Term,
    steps: nat,
    fuel: nat,
) -> (Seq<ArgKind>, Scope)
    decreases fuel, 3nat, steps,
{
    if steps == 0 {
        (Seq::empty(), sc)
    } else {
        match cur {
            Term::Pi(_, p, b) => {
                let k = spec_push_formal(env, params, names, sc, *p, fuel);
                let rest = spec_formal_pis(env, params, names, k.1, reduced(env, *b), (steps - 1) as nat, fuel);
                (seq![k.0] + rest.0, rest.1)
            },
            _ => (Seq::empty(), sc),
        }
    }
}

/// A binder of type `ty` brought into scope: a value index where the type
/// has a runtime type, else a fresh type parameter.
pub open spec fn spec_push_formal(
    env: Env,
    params: Seq<Vec<Term>>,
    names: Seq<Seq<char>>,
    sc: Scope,
    ty: Term,
    fuel: nat,
) -> (ArgKind, Scope)
    decreases fuel, 2nat, 0nat,
{
    let r = spec_lower_type(env, params, names, sc, ty, fuel);
    if r.0 is Some {
        (ArgKind::Index, bind_value(r.1))
    } else {
        (ArgKind::Type, bind_param(r.1))
    }
}

/// A function type: its parameters with a runtime type, and its result;
/// the scope is put back once the result is lowered. With no runtime
/// parameter it is its result.
pub open spec fn spec_lower_pi(
    env: Env,
    params: Seq<Vec<Term>>,
    names: Seq<Seq<char>>,
    sc: Scope,
    ty: Term,
    fuel: nat,
) -> (Option<TypeView>, Scope)
    decreases fuel, 6nat, 0nat,
{
    let outer = sc.binders.len();
    let walk = spec_pi_params(env, params, names, sc, reduced(env, ty), fuel, fuel);
    let ret = spec_lower_type(env, params, names, walk.1, walk.2, fuel);
    match ret.0 {
        None => (None, ret.1),
        Some(rt) => {
            let after = Scope {
                binders: if outer <= ret.1.binders.len() {
                    ret.1.binders.take(outer as int)
                } else {
                    ret.1.binders
                },
                next: ret.1.next,
            };
            if walk.0.len() == 0 {
                (Some(rt), after)
            } else {
                (Some(TypeView::Function { ret: Box::new(rt), params: walk.0 }), after)
            }
        },
    }
}

/// The parameters of the function type `cur`, at most `steps` of them: those
/// with a runtime type, the scope with every binder brought in, and what is
/// left of the type.
pub open spec fn spec_pi_params(
    env: Env,
    params: Seq<Vec<Term>>,
    names: Seq<Seq<char>>,
    sc: Scope,
    cur: Term,
    steps: nat,
    fuel: nat,
) -> (Seq<TypeView>, Scope, Term)
    decreases fuel, 5nat, steps,
{
    if steps == 0 {
        (Seq::empty(), sc, cur)
    } else {
        match cur {
            Term::Pi(_, p, b) => {
                let r = spec_lower_type(env, params, names, sc, *p, fuel);
                let here: (Seq<TypeView>, Scope) = match r.0 {
                    Some(t) => (seq![t], bind_value(r.1)),
                    None => (Seq::empty(), bind_param(r.1)),
                };
                let rest = spec_pi_params(env, params, names, here.1, reduced(env, *b), (steps - 1) as nat, fuel);
                (here.0 + rest.0, rest.1, rest.2)
            },
            _ => (Seq::empty(), sc, cur),
        }
    }
}

/// How types are being lowered: the binders in scope, innermost last, and
/// the number of the next type parameter.
#[derive(Debug)]
pub struct TypeLowering {
    pub binders: Vec<Binder>,
    pub next_param: usize,
}

/// `w` as `lower_type` reduces `t`: its weak head normal form, or `t` itself
/// where reduction runs out of steps.
pub open spec fn reduced(env: Env, t: Term) -> Term {
    match spec_whnf(env.bodies@, Seq::empty(), t, REDUCTION_BUDGET as nat) {
        Some(w) => w,
        None => t,
    }
}

impl TypeLowering {
    /// The scope this lowering is in.
    pub open spec fn scope(&self) -> Scope {
        Scope { binders: self.binders@, next: self.next_param as nat }
    }

    pub fn new() -> (r: TypeLowering)
        ensures
            r.binders@.len() == 0,
            r.next_param == 0,
            r.scope() == (Scope { binders: Seq::empty(), next: 0 }),
    {
        TypeLowering { binders: Vec::new(), next_param: 0 }
    }

    fn reduce(env: &Env, t: &Term) -> (r: Term)
        requires
            bodies_ok(env.bodies@, env.items@.len()),
            type_term(*t, env.items@.len()),
        ensures
            r == reduced(*env, *t),
            type_term(r, env.items@.len()),
    {
        proof {
            lemma_whnf_type_term(env.bodies@, *t, REDUCTION_BUDGET as nat, env.items@.len());
        }
        match whnf(env, t, REDUCTION_BUDGET) {
            Some(w) => w,
            None => t.copy(),
        }
    }

    /// Binds a fresh type parameter.
    fn bind_param(&mut self)
        ensures
            final(self).scope() == bind_param(old(self).scope()),
    {
        let p = self.next_param;
        if self.next_param < usize::MAX {
            self.next_param = self.next_param + 1;
        }
        self.binders.push(Binder::TypeParam(p));
    }

    /// The runtime type of `ty`; `None` where it has none: a universe, a
    /// constructor, or an inductive not given all its arguments.
    pub fn lower_type(&mut self, env: &Env, params: &Vec<Vec<Term>>, table: &SymbolTable, ty: &Term, fuel: usize) -> (r: Option<Type>)
        requires
            types_ok(*env, params@),
            type_term(*ty, env.items@.len()),
        ensures
            (opt_type_view(r), final(self).scope()) == spec_lower_type(*env, params@, table@, old(self).scope(), *ty, fuel as nat),
            params_present(r),
            fuel == 0 ==> (r matches Some(Type::Todo(s)) && s@ == "type lowering ran out of steps"@),
            fuel > 0 ==> {
                let w = reduced(*env, *ty);
                let h = spec_spine(w).0;
                let args = spec_spine(w).1;
                match h {
                    Term::BVar(i) => if args.len() == 0 {
                        r matches Some(t) && is_bvar_type(old(self).binders@, i as nat, t)
                    } else {
                        r matches Some(Type::Todo(s)) && s@ == term_debug(env.items@, table@, w)
                    },
                    Term::Sort(_) => r is None,
                    Term::Const(c) => env.items@[c.0 as int].kind == ItemKind::Constructor ==> r is None,
                    Term::Pi(..) => true,
                    _ => r matches Some(Type::Todo(s)) && s@ == term_debug(env.items@, table@, w),
                }
            },
        decreases fuel, 1nat,
    {
        if fuel == 0 {
            let mut m: Vec<char> = Vec::new();
            push_str(&mut m, "type lowering ran out of steps");
            return Some(Type::Todo(string_from_chars(m.as_slice())));
        }
        let n = env.items.len();
        let w = Self::reduce(env, ty);
        let (head, args) = spine_of(&w);
        proof {
            lemma_spine_type_term(w, env.items@.len());
        }
        match head {
            Term::BVar(i) => if args.len() == 0 {
                Some(self.lower_bvar(i))
            } else {
                Some(Type::Todo(w.debug(env, table)))
            },
            Term::Const(id) => self.lower_const_applied(env, params, table, id, &args, fuel - 1),
            Term::Pi(..) => self.lower_pi_type(env, params, table, &w, fuel - 1),
            Term::Sort(_) => None,
            Term::Lit(_) => {
                proof {
                    assert(false);
                }
                None
            },
            _ => Some(Type::Todo(w.debug(env, table))),
        }
    }

    /// The runtime type of bound variable `index`.
    fn lower_bvar(&self, index: usize) -> (r: Type)
        ensures
            is_bvar_type(self.binders@, index as nat, r),
            type_view(r) == bvar_view(self.binders@, index as nat),
    {
        if index < self.binders.len() {
            match self.binders[self.binders.len() - 1 - index] {
                Binder::TypeParam(p) => Type::Param(p),
                Binder::ValueIndex => {
                    let mut m: Vec<char> = Vec::new();
                    push_str(&mut m, "dependent value #");
                    push_decimal(&mut m, index as u64);
                    Type::Todo(string_from_chars(m.as_slice()))
                },
            }
        } else {
            let mut m: Vec<char> = Vec::new();
            push_str(&mut m, "unbound #");
            push_decimal(&mut m, index as u64);
            Type::Todo(string_from_chars(m.as_slice()))
        }
    }

    /// The runtime type of constant `id` applied to `args`: an inductive
    /// given exactly its arguments, or the expansion of a definition.
    fn lower_const_applied(
        &mut self,
        env: &Env,
        params: &Vec<Vec<Term>>,
        table: &SymbolTable,
        id: ItemId,
        args: &Vec<Term>,
        fuel: usize,
    ) -> (r: Option<Type>)
        requires
            types_ok(*env, params@),
            (id.0 as int) < env.items@.len(),
            forall|k: int| 0 <= k < args@.len() ==> type_term(#[trigger] args@[k], env.items@.len()),
        ensures
            (opt_type_view(r), final(self).scope()) == spec_lower_const(*env, params@, table@, old(self).scope(), id, args@, fuel as nat),
            env.items@[id.0 as int].kind == ItemKind::Constructor ==> r is None,
            env.items@[id.0 as int].kind == ItemKind::Inductive ==> adt_of(r, id),
            params_present(r),
        decreases fuel, 5nat,
    {
        match env.items[id.0 as usize].kind {
            ItemKind::Inductive => {
                let kinds = self.inductive_arg_kinds(env, params, table, id, fuel);
                if args.len() < kinds.len() {
                    return None;
                }
                if args.len() > kinds.len() {
                    let mut m: Vec<char> = Vec::new();
                    push_str(&mut m, "overapplied inductive");
                    return Some(Type::Todo(string_from_chars(m.as_slice())));
                }
                let mut out: Vec<TypeArg> = Vec::new();
                let mut i: usize = 0;
                let ghost sc0 = self.scope();
                while i < args.len()
                    invariant
                        i <= args@.len(),
                        args@.len() == kinds@.len(),
                        kinds@ == spec_arg_kinds(*env, params@, table@, id, fuel as nat),
                        types_ok(*env, params@),
                        forall|k: int| 0 <= k < args@.len() ==> type_term(#[trigger] args@[k], env.items@.len()),
                        (args_view(out@), self.scope()) == spec_lower_args(
                            *env,
                            params@,
                            table@,
                            sc0,
                            args@,
                            kinds@,
                            i as nat,
                            fuel as nat,
                        ),
                    decreases args.len() - i,
                {
                    let a = self.lower_type_arg(env, params, table, &args[i], kinds[i], fuel);
                    let ghost before = out@;
                    out.push(a);
                    assert(out@.drop_last() =~= before);
                    i = i + 1;
                }
                Some(Type::Adt { id, args: out })
            },
            ItemKind::Def => {
                match env.def_body(id) {
                    None => {
                        let mut m: Vec<char> = Vec::new();
                        push_str(&mut m, "opaque def ");
                        write_symbol(&mut m, table, env.items[id.0 as usize].name);
                        Some(Type::Todo(string_from_chars(m.as_slice())))
                    },
                    Some(body) => {
                        proof {
                            assert(env.bodies@[id.0 as int] == Some(*body));
                            lemma_instantiate_many_type_term(env.bodies@, *body, args@, REDUCTION_BUDGET as nat, env.items@.len());
                        }
                        match instantiate_many(env, body, args.as_slice(), REDUCTION_BUDGET) {
                            Some(expanded) => self.lower_type(env, params, table, &expanded, fuel),
                            None => {
                                let mut m: Vec<char> = Vec::new();
                                push_str(&mut m, "type lowering ran out of steps");
                                Some(Type::Todo(string_from_chars(m.as_slice())))
                            },
                        }
                    },
                }
            },
            ItemKind::Constructor => None,
        }
    }

    /// An argument of an inductive: a type lowered, or a value reduced.
    fn lower_type_arg(&mut self, env: &Env, params: &Vec<Vec<Term>>, table: &SymbolTable, arg: &Term, kind: ArgKind, fuel: usize) -> (r: TypeArg)
        requires
            types_ok(*env, params@),
            type_term(*arg, env.items@.len()),
        ensures
            (arg_view(r), final(self).scope()) == spec_lower_type_arg(*env, params@, table@, old(self).scope(), *arg, kind, fuel as nat),
            kind == ArgKind::Index ==> r == TypeArg::Index(reduced(*env, *arg)),
            kind == ArgKind::Type ==> r is Type,
        decreases fuel, 4nat,
    {
        match kind {
            ArgKind::Type => match self.lower_type(env, params, table, arg, fuel) {
                Some(t) => TypeArg::Type(t),
                None => {
                    let mut m: Vec<char> = Vec::new();
                    push_str(&mut m, "erased type argument ");
                    push_str(&mut m, arg.debug(env, table).as_str());
                    TypeArg::Type(Type::Todo(string_from_chars(m.as_slice())))
                },
            },
            ArgKind::Index => TypeArg::Index(Self::reduce(env, arg)),
        }
    }

    /// How inductive `id` takes each of its arguments: its parameters, then
    /// the binders of its type, each an index where it has a runtime type
    /// and a type parameter where it has none.
    fn inductive_arg_kinds(&self, env: &Env, params: &Vec<Vec<Term>>, table: &SymbolTable, id: ItemId, fuel: usize) -> (r: Vec<ArgKind>)
        requires
            types_ok(*env, params@),
            (id.0 as int) < env.items@.len(),
        ensures
            r@ == spec_arg_kinds(*env, params@, table@, id, fuel as nat),
            r@.len() >= params@[id.0 as int]@.len(),
        decreases fuel, 4nat,
    {
        let mut cx = TypeLowering::new();
        let mut kinds: Vec<ArgKind> = Vec::new();
        let ps = &params[id.0 as usize];
        let mut i: usize = 0;
        while i < ps.len()
            invariant
                i <= ps@.len(),
                kinds@.len() == i,
                ps == params@[id.0 as int],
                types_ok(*env, params@),
                (id.0 as int) < env.items@.len(),
                (kinds@, cx.scope()) == spec_formals(*env, params@, table@, ps@, i as nat, fuel as nat),
            decreases ps.len() - i,
        {
            let k = cx.push_formal_arg(env, params, table, &ps[i], fuel);
            let ghost before = kinds@;
            kinds.push(k);
            assert(kinds@.drop_last() =~= before);
            i = i + 1;
        }
        let ghost first = kinds@;
        let mut current = Self::reduce(env, &env.signatures[id.0 as usize]);
        let ghost total = spec_formal_pis(*env, params@, table@, cx.scope(), current, fuel as nat, fuel as nat).0;
        let mut steps: usize = fuel;
        assert(first + Seq::<ArgKind>::empty() =~= first);
        while steps > 0
            invariant
                types_ok(*env, params@),
                type_term(current, env.items@.len()),
                kinds@.len() >= params@[id.0 as int]@.len(),
                first.len() == params@[id.0 as int]@.len(),
                kinds@ + spec_formal_pis(*env, params@, table@, cx.scope(), current, steps as nat, fuel as nat).0
                    == first + total,
            ensures
                kinds@ == first + total,
            decreases steps,
        {
            match current {
                Term::Pi(_, param, body) => {
                    let ghost pre = kinds@;
                    let ghost sc = cx.scope();
                    let k = cx.push_formal_arg(env, params, table, &param, fuel);
                    kinds.push(k);
                    current = Self::reduce(env, &body);
                    proof {
                        let rest = spec_formal_pis(*env, params@, table@, cx.scope(), current, (steps - 1) as nat, fuel as nat).0;
                        assert(pre + (seq![k] + rest) =~= kinds@ + rest);
                    }
                },
                _ => {
                    assert(kinds@ + Seq::<ArgKind>::empty() =~= kinds@);
                    break;
                },
            }
            steps = steps - 1;
        }
        proof {
            if steps == 0 {
                assert(kinds@ + Seq::<ArgKind>::empty() =~= kinds@);
            }
        }
        kinds
    }

    /// Brings a binder of type `ty` into scope: a value index where the type
    /// has a runtime type, else a fresh type parameter.
    fn push_formal_arg(&mut self, env: &Env, params: &Vec<Vec<Term>>, table: &SymbolTable, ty: &Term, fuel: usize) -> (r: ArgKind)
        requires
            types_ok(*env, params@),
            type_term(*ty, env.items@.len()),
        ensures
            (r, final(self).scope()) == spec_push_formal(*env, params@, table@, old(self).scope(), *ty, fuel as nat),
        decreases fuel, 3nat,
    {
        if self.lower_type(env, params, table, ty, fuel).is_some() {
            self.binders.push(Binder::ValueIndex);
            ArgKind::Index
        } else {
            self.bind_param();
            ArgKind::Type
        }
    }

    /// The runtime type of a function type: the runtime parameters, and the
    /// runtime result; parameters without a runtime type become type
    /// parameters. A function type with no runtime parameter is its result.
    fn lower_pi_type(&mut self, env: &Env, params: &Vec<Vec<Term>>, table: &SymbolTable, ty: &Term, fuel: usize) -> (r: Option<Type>)
        requires
            types_ok(*env, params@),
            type_term(*ty, env.items@.len()),
        ensures
            (opt_type_view(r), final(self).scope()) == spec_lower_pi(*env, params@, table@, old(self).scope(), *ty, fuel as nat),
            params_present(r),
        decreases fuel, 5nat,
    {
        let outer = self.binders.len();
        let mut current = Self::reduce(env, ty);
        let ghost total = spec_pi_params(*env, params@, table@, self.scope(), current, fuel as nat, fuel as nat);
        let mut ps: Vec<Type> = Vec::new();
        let mut steps: usize = fuel;
        assert(Seq::<TypeView>::empty() + total.0 =~= total.0);
        while steps > 0
            invariant
                types_ok(*env, params@),
                type_term(current, env.items@.len()),
                types_view(ps@) + spec_pi_params(*env, params@, table@, self.scope(), current, steps as nat, fuel as nat).0
                    == total.0,
                spec_pi_params(*env, params@, table@, self.scope(), current, steps as nat, fuel as nat).1 == total.1,
                spec_pi_params(*env, params@, table@, self.scope(), current, steps as nat, fuel as nat).2 == total.2,
            ensures
                types_view(ps@) == total.0,
                self.scope() == total.1,
                current == total.2,
            decreases steps,
        {
            match current {
                Term::Pi(_, param, body) => {
                    let ghost pre = types_view(ps@);
                    match self.lower_type(env, params, table, &param, fuel) {
                        Some(p) => {
                            let ghost before = ps@;
                            ps.push(p);
                            assert(ps@.drop_last() =~= before);
                            self.binders.push(Binder::ValueIndex);
                        },
                        None => {
                            self.bind_param();
                        },
                    }
                    current = Self::reduce(env, &body);
                    proof {
                        let rest = spec_pi_params(*env, params@, table@, self.scope(), current, (steps - 1) as nat, fuel as nat).0;
                        let here = types_view(ps@).subrange(pre.len() as int, types_view(ps@).len() as int);
                        assert(types_view(ps@) =~= pre + here);
                        assert(pre + (here + rest) =~= types_view(ps@) + rest);
                    }
                },
                _ => {
                    assert(types_view(ps@) + Seq::<TypeView>::empty() =~= types_view(ps@));
                    break;
                },
            }
            steps = steps - 1;
        }
        proof {
            if steps == 0 {
                assert(types_view(ps@) + Seq::<TypeView>::empty() =~= types_view(ps@));
            }
        }
        let ret = match self.lower_type(env, params, table, &current, fuel) {
            Some(t) => t,
            None => return None,
        };
        self.binders.truncate(outer);
        proof {
            if outer as int <= self.binders@.len() {
                assert(self.binders@ =~= self.binders@.take(outer as int));
            }
        }
        if ps.len() == 0 {
            Some(ret)
        } else {
            Some(Type::Function { params: ps, ret: Box::new(ret) })
        }
    }
}

/// The runtime type of `ty` in an empty scope, within the reduction budget.
pub open spec fn spec_lower_closed(env: Env, params: Seq<Vec<Term>>, names: Seq<Seq<char>>, ty: Term) -> Option<TypeView> {
    spec_lower_type(env, params, names, Scope { binders: Seq::empty(), next: 0 }, ty, REDUCTION_BUDGET as nat).0
}

/// The runtime type of `ty`, lowered in an empty scope.
pub fn lower_type(env: &Env, params: &Vec<Vec<Term>>, table: &SymbolTable, ty: &Term) -> (r: Option<Type>)
    requires
        types_ok(*env, params@),
        type_term(*ty, env.items@.len()),
    ensures
        opt_type_view(r) == spec_lower_closed(*env, params@, table@, *ty),
        spec_spine(reduced(*env, *ty)).0 is Sort ==> r is None,
{
    let mut cx = TypeLowering::new();
    cx.lower_type(env, params, table, ty, REDUCTION_BUDGET)
}

/// A declaration with its runtime type.
#[derive(Debug)]
pub struct PirItem {
    pub item: ItemId,
    pub ty: Type,
}

/// The declarations of a file that have a runtime type.
#[derive(Debug)]
pub struct PirFile {
    pub items: Vec<PirItem>,
}

/// The runtime type of declaration `item`, from its elaborated signature;
/// `None` where its type has no runtime type.
pub fn lower_item(env: &Env, params: &Vec<Vec<Term>>, table: &SymbolTable, item: ItemId) -> (r: Option<PirItem>)
    requires
        types_ok(*env, params@),
        (item.0 as int) < env.items@.len(),
    ensures
        match spec_lower_closed(*env, params@, table@, env.signatures@[item.0 as int]) {
            None => r is None,
            Some(t) => r matches Some(p) && p.item == item && type_view(p.ty) == t,
        },
        spec_spine(reduced(*env, env.signatures@[item.0 as int])).0 is Sort ==> r is None,
{
    let ty = match lower_type(env, params, table, &env.signatures[item.0 as usize]) {
        Some(t) => t,
        None => return None,
    };
    Some(PirItem { item, ty })
}

/// `decls` declares the item `id` under some name.
pub open spec fn declares(decls: Seq<(crate::ids::Symbol, ItemId)>, id: ItemId) -> bool {
    exists|j: int| 0 <= j < decls.len() && decls[j].1 == id
}

/// The declarations of `decls` that have a runtime type, in order, each with it.
pub open spec fn spec_lower_file(env: Env, params: Seq<Vec<Term>>, names: Seq<Seq<char>>, decls: Seq<(crate::ids::Symbol, ItemId)>) -> Seq<(ItemId, TypeView)>
    decreases decls.len(),
{
    if decls.len() == 0 {
        Seq::empty()
    } else {
        let prev = spec_lower_file(env, params, names, decls.drop_last());
        let id = decls.last().1;
        match spec_lower_closed(env, params, names, env.signatures@[id.0 as int]) {
            Some(t) => prev.push((id, t)),
            None => prev,
        }
    }
}

/// What the specifications see of lowered declarations.
pub open spec fn pir_items_view(items: Seq<PirItem>) -> Seq<(ItemId, TypeView)> {
    items.map_values(|p: PirItem| (p.item, type_view(p.ty)))
}

/// The declarations of a file's namespace that have a runtime type, in order.
pub fn lower_file(env: &Env, params: &Vec<Vec<Term>>, table: &SymbolTable, namespace: &crate::namespace::Namespace) -> (r: PirFile)
    requires
        types_ok(*env, params@),
        forall|k: int| 0 <= k < namespace.decls@.len() ==> ((#[trigger] namespace.decls@[k]).1.0 as int) < env.items@.len(),
    ensures
        pir_items_view(r.items@) == spec_lower_file(*env, params@, table@, namespace.decls@),
        r.items@.len() <= namespace.decls@.len(),
        forall|k: int| 0 <= k < r.items@.len() ==> declares(namespace.decls@, (#[trigger] r.items@[k]).item),
{
    let mut items: Vec<PirItem> = Vec::new();
    let mut i: usize = 0;
    while i < namespace.decls.len()
        invariant
            i <= namespace.decls@.len(),
            items@.len() <= i,
            types_ok(*env, params@),
            forall|k: int| 0 <= k < namespace.decls@.len() ==> ((#[trigger] namespace.decls@[k]).1.0 as int) < env.items@.len(),
            forall|k: int| 0 <= k < items@.len() ==> declares(namespace.decls@, (#[trigger] items@[k]).item),
            pir_items_view(items@) == spec_lower_file(*env, params@, table@, namespace.decls@.take(i as int)),
        decreases namespace.decls.len() - i,
    {
        assert(namespace.decls@.take(i + 1).drop_last() =~= namespace.decls@.take(i as int));
        assert(namespace.decls@.take(i + 1).last() == namespace.decls@[i as int]);
        match lower_item(env, params, table, namespace.decls[i].1) {
            Some(p) => {
                let ghost before = items@;
                items.push(p);
                proof {
                    assert(items@[items@.len() - 1].item == namespace.decls@[i as int].1);
                    assert forall|k: int| 0 <= k < items@.len() implies declares(namespace.decls@, (#[trigger] items@[k]).item) by {
                        if k < before.len() {
                            assert(items@[k] == before[k]);
                        } else {
                            assert(items@[k].item == namespace.decls@[i as int].1);
                        }
                    }
                    assert(pir_items_view(items@) =~= pir_items_view(before).push((p.item, type_view(p.ty))));
                }
            },
            None => {},
        }
        i = i + 1;
    }
    assert(namespace.decls@.take(namespace.decls@.len() as int) =~= namespace.decls@);
    PirFile { items }
}


/// A bound variable is lowered as the binder it points at, counting from
/// the innermost: `#i` under binders `b_0 .. b_{n-1}`, innermost last, is
/// the type parameter of `b_{n-1-i}`, and the scope stays as it was.
pub proof fn lemma_lower_bvar_counts_from_innermost(
    env: Env,
    params: Seq<Vec<Term>>,
    names: Seq<Seq<char>>,
    sc: Scope,
    i: usize,
    p: usize,
    fuel: nat,
)
    requires
        fuel > 0,
        (i as int) < sc.binders.len(),
        sc.binders[sc.binders.len() - 1 - i] == Binder::TypeParam(p),
    ensures
        spec_lower_type(env, params, names, sc, Term::BVar(i), fuel) == (Some(TypeView::Param(p as nat)), sc),
{
    assert(spec_whnf(env.bodies@, Seq::empty(), Term::BVar(i), REDUCTION_BUDGET as nat) == Some(Term::BVar(i)));
    assert(spec_spine(Term::BVar(i)) == (Term::BVar(i), Seq::<Term>::empty()));
}

/// Binding one more type parameter makes `#0` stand for it and shifts
/// the indices of the type parameters around it by one: `#(i+1)` under the
/// new binder is lowered as `#i` was without it.
pub proof fn lemma_lower_bvar_under_param(
    env: Env,
    params: Seq<Vec<Term>>,
    names: Seq<Seq<char>>,
    sc: Scope,
    i: usize,
    fuel: nat,
)
    requires
        fuel > 0,
        sc.next < usize::MAX,
        i < usize::MAX,
    ensures
        spec_lower_type(env, params, names, bind_param(sc), Term::BVar(0), fuel).0 == Some(
            TypeView::Param(sc.next),
        ),
        (i as int) < sc.binders.len() && sc.binders[sc.binders.len() - 1 - i] is TypeParam ==> spec_lower_type(
            env,
            params,
            names,
            bind_param(sc),
            Term::BVar((i + 1) as usize),
            fuel,
        ).0 == spec_lower_type(env, params, names, sc, Term::BVar(i), fuel).0,
{
    let j = (i + 1) as usize;
    assert(spec_whnf(env.bodies@, Seq::empty(), Term::BVar(0), REDUCTION_BUDGET as nat) == Some(Term::BVar(0)));
    assert(spec_spine(Term::BVar(0)) == (Term::BVar(0), Seq::<Term>::empty()));
    assert(spec_whnf(env.bodies@, Seq::empty(), Term::BVar(i), REDUCTION_BUDGET as nat) == Some(Term::BVar(i)));
    assert(spec_spine(Term::BVar(i)) == (Term::BVar(i), Seq::<Term>::empty()));
    assert(spec_whnf(env.bodies@, Seq::empty(), Term::BVar(j), REDUCTION_BUDGET as nat) == Some(Term::BVar(j)));
    assert(spec_spine(Term::BVar(j)) == (Term::BVar(j), Seq::<Term>::empty()));
    let b2 = bind_param(sc).binders;
    assert(b2[b2.len() - 1 - 0] == Binder::TypeParam(sc.next as usize));
    if (i as int) < sc.binders.len() {
        assert(b2[b2.len() - 1 - j] == sc.binders[sc.binders.len() - 1 - i]);
    }
}


/// In a function type, a binder over a universe is a type parameter: it
/// takes no runtime argument, and the rest is lowered with one more type
/// parameter bound, numbered next.
pub proof fn lemma_pi_params_universe(
    env: Env,
    params: Seq<Vec<Term>>,
    names: Seq<Seq<char>>,
    sc: Scope,
    info: crate::term::BinderInfo,
    l: crate::term::Level,
    b: Term,
    steps: nat,
    fuel: nat,
)
    requires
        fuel > 0,
    ensures
        spec_pi_params(env, params, names, sc, Term::Pi(info, Box::new(Term::Sort(l)), Box::new(b)), steps + 1, fuel)
            == spec_pi_params(env, params, names, bind_param(sc), reduced(env, b), steps, fuel),
{
    assert(spec_whnf(env.bodies@, Seq::empty(), Term::Sort(l), REDUCTION_BUDGET as nat) == Some(Term::Sort(l)));
    assert(spec_spine(Term::Sort(l)) == (Term::Sort(l), Seq::<Term>::empty()));
    assert(reduced(env, Term::Sort(l)) == Term::Sort(l));
    assert(spec_lower_type(env, params, names, sc, Term::Sort(l), fuel) == (None::<TypeView>, sc));
    let rest = spec_pi_params(env, params, names, bind_param(sc), reduced(env, b), steps, fuel);
    assert(Seq::<TypeView>::empty() + rest.0 =~= rest.0);
}

/// In a function type, a binder over a type parameter is a runtime
/// argument of that parameter's type: the one bound by the binder the
/// index points at, counting from the innermost; the rest is lowered with
/// a value bound.
pub proof fn lemma_pi_params_param_arg(
    env: Env,
    params: Seq<Vec<Term>>,
    names: Seq<Seq<char>>,
    sc: Scope,
    info: crate::term::BinderInfo,
    i: usize,
    p: usize,
    b: Term,
    steps: nat,
    fuel: nat,
)
    requires
        fuel > 0,
        (i as int) < sc.binders.len(),
        sc.binders[sc.binders.len() - 1 - i] == Binder::TypeParam(p),
    ensures
        ({
            let r = spec_pi_params(env, params, names, sc, Term::Pi(info, Box::new(Term::BVar(i)), Box::new(b)), steps + 1, fuel);
            let rest = spec_pi_params(env, params, names, bind_value(sc), reduced(env, b), steps, fuel);
            r == (seq![TypeView::Param(p as nat)] + rest.0, rest.1, rest.2)
        }),
{
    lemma_lower_bvar_counts_from_innermost(env, params, names, sc, i, p, fuel);
}
} // verus!
