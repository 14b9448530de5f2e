//! Elaboration of expressions: inference, checking against an expected type,
//! blocks of statements, and applications with their implicit arguments.

use vstd::prelude::*;
use crate::app::{holes_added, instance_diag, AppState};
use crate::ast::{Expr, LiteralNode, Stmt};
use crate::ctx::ElabCtx;
use crate::diagnostics::{Diag, TextRange};
use crate::ids::{Symbol, SymbolTable};

use crate::infer::spec_literal_lang_item;
use crate::lang_items::{spec_unquoted, LangItem};
use crate::literals::Literal;
use crate::local::{last_named, lemma_last_named_facts, LocalBinder};
use crate::lower::{has_room, quiet, checked_against, name_resolved, name_shape, elab_frame, elab_steps, intern, lemma_frame_refl, lemma_frame_table, lemma_frame_trans, lemma_prefix_push, lemma_prefix_refl, lemma_ready_grows, lemma_sym_for_stable, ready, sym_for};
use crate::meta::MetaView;
use crate::report::{diag_head, quoted, Expected, ExpectedReason};
use crate::debug::term_debug;
use crate::subst::{abstract_fits_exec, abstract_fvar, instantiate, instantiate_fits, instantiate_fits_exec, spec_abstract_at, spec_instantiate_at};
use crate::ids::Unique;
use crate::term::{BinderInfo, Term};
use crate::text::{push_str, string_from_chars};
use crate::unify::lemma_keeps_refl;

verus! {

/// An elaboration step on an expression: an `elab_frame` that leaves the
/// locals in scope and the auto-bound locals as they were.
pub open spec fn expr_step<'a>(
    before: ElabCtx<'a>,
    tb: Seq<Seq<char>>,
    after: ElabCtx<'a>,
    ta: Seq<Seq<char>>,
) -> bool {
    &&& elab_frame(before, tb, after, ta)
    &&& after.lctx@ == before.lctx@
    &&& after.autobound == before.autobound
}

/// The unit value and type as `unit_value` gives them: each its lang item, or
/// the poisoned term where the file has none.
pub open spec fn unit_pair<'a>(cx: ElabCtx<'a>, r: (Term, Term)) -> bool {
    &&& (cx.lang_items@.contains_key(LangItem::UnitConstructor) ==> r.0 == Term::Const(
        cx.lang_items@[LangItem::UnitConstructor],
    ))
    &&& (!cx.lang_items@.contains_key(LangItem::UnitConstructor) ==> r.0 is Error)
    &&& (cx.lang_items@.contains_key(LangItem::Unit) ==> r.1 == Term::Const(cx.lang_items@[LangItem::Unit]))
    &&& (!cx.lang_items@.contains_key(LangItem::Unit) ==> r.1 is Error)
}

/// The type of a literal term: the lang item its kind names, or the poisoned
/// term where the file has none; a poisoned term is its own type.
pub open spec fn literal_typed<'a>(cx: ElabCtx<'a>, r: (Term, Term)) -> bool {
    match r.0 {
        Term::Lit(l) => {
            let item = spec_literal_lang_item(l);
            &&& cx.lang_items@.contains_key(item) ==> r.1 == Term::Const(cx.lang_items@[item])
            &&& !cx.lang_items@.contains_key(item) ==> r.1 is Error
        },
        _ => r.0 is Error && r.1 is Error,
    }
}

/// `t` is `base` applied to holes, none or more.
pub open spec fn mvar_apps(base: Term, t: Term) -> bool
    decreases t,
{
    t == base || (t matches Term::App(f, m) && *m is MVar && mvar_apps(base, *f))
}

/// A literal that elaborates to the poisoned term without a report: one the
/// parser left without text, or a string literal that is not quoted.
pub open spec fn silent_literal(lit: LiteralNode) -> bool {
    match lit {
        LiteralNode::Number { text, .. } => text is None,
        LiteralNode::Str { text, .. } => match text {
            None => true,
            Some(t) => spec_unquoted(t@) is None,
        },
    }
}

/// `t` is what elaborating `e` makes of it, but for what its names and
/// literals become and which holes are made: a name a local, a declaration
/// or a universe; a literal a literal; a block its statements; an
/// application its function applied to its argument after the implicit
/// arguments; and the poisoned term wherever elaboration fails.
pub open spec fn expr_shape(e: Expr, t: Term) -> bool {
    expr_form(false, e, t)
}

/// `t` is what elaborating `e` makes of it, as `expr_shape` says; where
/// `strict`, the poisoned term only where the source has a gap or a literal
/// that is not one.
pub open spec fn expr_form(strict: bool, e: Expr, t: Term) -> bool
    decreases e, 2nat, t,
{
    match e {
        Expr::Literal(lit) => t is Lit || (if strict {
            t is Error && silent_literal(lit)
        } else {
            t is Error
        }),
        Expr::Name(_) => name_shape(t),
        Expr::Paren { inner, .. } => match inner {
            None => t is Error,
            Some(i) => expr_form(strict, *i, t),
        },
        Expr::Block { stmts, .. } => block_form(strict, stmts, 0, false, t),
        Expr::App { .. } => (!strict && t is Error) || app_form(strict, e, t),
    }
}

/// An application that elaborated: its function, after the implicit
/// arguments, applied to its argument checked against the domain.
pub open spec fn app_shape(e: Expr, t: Term) -> bool {
    app_form(false, e, t)
}

/// An application that elaborated, as `app_shape` says, strictly or not.
pub open spec fn app_form(strict: bool, e: Expr, t: Term) -> bool
    decreases e, 1nat, t,
{
    match e {
        Expr::App { func, arg, .. } => t matches Term::App(w, x) && (match arg {
            None => *x is Error,
            Some(a) => check_form(strict, *a, *x),
        }) && implicits_over(strict, func, *w),
        _ => false,
    }
}

/// The function of an application, applied to holes.
pub open spec fn implicits_over(strict: bool, func: Option<Box<Expr>>, w: Term) -> bool
    decreases func, 4nat, w,
{
    head_shape(strict, func, w) || (w matches Term::App(w1, m) && *m is MVar && implicits_over(strict, func, *w1))
}

/// The function of an application: an application itself, anything else
/// inferred, or the poisoned term where it is missing.
pub open spec fn head_shape(strict: bool, func: Option<Box<Expr>>, w: Term) -> bool
    decreases func, 3nat, w,
{
    match func {
        None => w is Error,
        Some(h) => match *h {
            Expr::App { .. } => app_form(strict, *h, w),
            _ => expr_form(strict, *h, w),
        },
    }
}

/// `t` is what checking `e` against an expected type makes of it: a block
/// its statements, anything else inferred and applied to the holes the
/// expected type does not take.
pub open spec fn check_shape(e: Expr, t: Term) -> bool {
    check_form(false, e, t)
}

/// What checking `e` makes of it, as `check_shape` says, strictly or not.
pub open spec fn check_form(strict: bool, e: Expr, t: Term) -> bool
    decreases e, 6nat, t,
{
    match e {
        Expr::Block { stmts, .. } => block_form(strict, stmts, 0, true, t),
        _ => (!strict && t is Error) || implicits_after(strict, e, t),
    }
}

/// What inferring `e` makes of it, applied to holes.
pub open spec fn implicits_after(strict: bool, e: Expr, t: Term) -> bool
    decreases e, 5nat, t,
{
    expr_form(strict, e, t) || (t matches Term::App(t1, m) && *m is MVar && implicits_after(strict, e, *t1))
}

/// The unit value; the poisoned term too, where not `strict`.
pub open spec fn unit_form(strict: bool, t: Term) -> bool {
    t is Const || (!strict && t is Error)
}

/// `t` is what elaborating the statements of a block from the `i`-th makes
/// of them, checked against an expected type or not: a `let` or a mutation
/// a `Let` of the value over the rest, its local abstracted; a `return` its
/// expression; the end of the block the unit value.
pub open spec fn block_shape(stmts: Vec<Stmt>, i: nat, checking: bool, t: Term) -> bool {
    block_form(false, stmts, i, checking, t)
}

/// The statements of a block elaborated, as `block_shape` says; where
/// `strict`, with no poisoned part but where the source has a gap.
pub open spec fn block_form(strict: bool, stmts: Vec<Stmt>, i: nat, checking: bool, t: Term) -> bool
    decreases stmts, stmts@.len() - i, t,
{
    if i >= stmts@.len() {
        unit_form(strict, t)
    } else {
        match stmts@[i as int] {
            Stmt::Let { expr, .. } => (!strict && t is Error) || (t matches Term::Let(_, v, b) && (match expr {
                None => *v is Error,
                Some(x) => expr_form(strict, x, *v),
            }) && ((!strict && *b is Error) || block_form(strict, stmts, i + 1, checking, *b))),
            Stmt::Mutation { name: None, .. } => t is Error,
            Stmt::Mutation { name: Some(_), expr, .. } => (!strict && t is Error) || (t matches Term::Let(_, v, b)
                && (match expr {
                None => *v is Error,
                Some(x) => expr_form(strict, x, *v),
            }) && ((!strict && *b is Error) || block_form(strict, stmts, i + 1, checking, *b))),
            Stmt::Return { expr: None, .. } => unit_form(strict, t),
            Stmt::Return { expr: Some(x), .. } => if checking {
                check_form(strict, x, t)
            } else {
                expr_form(strict, x, t)
            },
        }
    }
}

/// The unit type, or the poisoned term where the file has none.
pub open spec fn unit_type(lang: Map<LangItem, crate::ids::ItemId>, ty: Term) -> bool {
    &&& lang.contains_key(LangItem::Unit) ==> ty == Term::Const(lang[LangItem::Unit])
    &&& !lang.contains_key(LangItem::Unit) ==> ty is Error
}

/// `ty` is the type of the statements of a block from the `i`-th, as
/// elaborating them gives it: the type of what the block returns, which is
/// the expected type where there is one, or the unit type where it returns
/// nothing; the poisoned term where a statement fails, unless `strict`.
pub open spec fn block_type_form(
    strict: bool,
    stmts: Vec<Stmt>,
    i: nat,
    expected: Option<Term>,
    lang: Map<LangItem, crate::ids::ItemId>,
    ty: Term,
) -> bool
    decreases stmts@.len() - i,
{
    if i >= stmts@.len() {
        unit_type(lang, ty)
    } else {
        match stmts@[i as int] {
            Stmt::Let { .. } => (!strict && ty is Error) || block_type_form(strict, stmts, i + 1, expected, lang, ty),
            Stmt::Mutation { name: None, .. } => ty is Error,
            Stmt::Mutation { name: Some(_), .. } => (!strict && ty is Error) || block_type_form(
                strict,
                stmts,
                i + 1,
                expected,
                lang,
                ty,
            ),
            Stmt::Return { expr: None, .. } => unit_type(lang, ty),
            Stmt::Return { expr: Some(_), .. } => expected matches Some(x) ==> ty == x,
        }
    }
}

/// The type of the statements of a block from the `i`-th, as
/// `block_type_form` gives it, not strictly.
pub open spec fn block_type(
    stmts: Vec<Stmt>,
    i: nat,
    expected: Option<Term>,
    lang: Map<LangItem, crate::ids::ItemId>,
    ty: Term,
) -> bool {
    block_type_form(false, stmts, i, expected, lang, ty)
}


/// The type a block is expected to have, if any.
pub open spec fn expected_ty(expected: Option<&Expected>) -> Option<Term> {
    match expected {
        Some(x) => Some(x.ty),
        None => None,
    }
}

/// What inserting implicit arguments into `term : ty` in `cx` gives, as
/// `insert_implicits` does it: whether an instance-implicit binder stopped
/// it, the term, its type, and the holes made.
pub open spec fn implicits_of<'a>(
    cx: ElabCtx<'a>,
    term: Term,
    ty: Term,
    expected: Option<Term>,
) -> (bool, Term, Term, Seq<(Unique, Term)>) {
    crate::app::spec_insert_implicits(
        cx.env.bodies@,
        cx.mctx.solutions(),
        cx.gen_.next_id() as nat,
        term,
        ty,
        cx.fuel as nat,
        cx.fuel as nat,
        expected,
    )
}

/// The range an argument is reported at: its own, or the application's
/// where it is missing.
pub open spec fn arg_range(arg: Option<Box<Expr>>, range: TextRange) -> TextRange {
    match arg {
        Some(a) => a.spec_range(),
        None => range,
    }
}

/// `d` reports the argument at `range` of `file`: a call that needs
/// instance search, or a function position whose type is not a function.
pub open spec fn arg_error(d: Diag, file: u32, range: TextRange) -> bool {
    ||| instance_diag(d, file, range)
    ||| exists|t: Seq<char>| #[trigger] diag_head(d.inner, file, range, "expected a function, found "@ + t)
}

/// `d` reports one of the arguments of the application `e`.
pub open spec fn spine_error(e: Expr, file: u32, d: Diag) -> bool
    decreases e,
{
    match e {
        Expr::App { func, arg, range } => arg_error(d, file, arg_range(arg, range)) || match func {
            Some(f) => match *f {
                Expr::App { .. } => spine_error(*f, file, d),
                _ => false,
            },
            None => false,
        },
        _ => false,
    }
}

/// `u` is the name of a local of `lctx`.
pub open spec fn in_scope(lctx: Seq<LocalBinder>, u: Unique) -> bool {
    exists|k: int| 0 <= k < lctx.len() && #[trigger] lctx[k].unique == u
}

/// Free variable `u` occurs in `t` outside the type annotations of its
/// `Let`s: in what the term computes.
pub open spec fn value_fvar(t: Term, u: Unique) -> bool
    decreases t,
{
    match t {
        Term::FVar(x) => x == u,
        Term::App(f, a) => value_fvar(*f, u) || value_fvar(*a, u),
        Term::Lam(_, a, b) | Term::Pi(_, a, b) | Term::Sigma(_, a, b) => value_fvar(*a, u) || value_fvar(*b, u),
        Term::Let(_, v, b) => value_fvar(*v, u) || value_fvar(*b, u),
        _ => false,
    }
}

/// Every free variable of what `t` computes is a local of `lctx`: no local
/// bound inside it escapes.
pub open spec fn values_within(t: Term, lctx: Seq<LocalBinder>) -> bool {
    forall|u: Unique| #[trigger] value_fvar(t, u) ==> in_scope(lctx, u)
}

/// Abstracting `x` leaves the other free variables and removes `x`.
pub proof fn lemma_abstract_value_fvar(t: Term, x: Unique, k: nat, u: Unique)
    ensures
        value_fvar(spec_abstract_at(t, x, k), u) <==> value_fvar(t, u) && u != x,
    decreases t,
{
    match t {
        Term::App(f, a) => {
            lemma_abstract_value_fvar(*f, x, k, u);
            lemma_abstract_value_fvar(*a, x, k, u);
        },
        Term::Lam(_, a, b) | Term::Pi(_, a, b) | Term::Sigma(_, a, b) => {
            lemma_abstract_value_fvar(*a, x, k, u);
            lemma_abstract_value_fvar(*b, x, k + 1, u);
        },
        Term::Let(a, v, b) => {
            lemma_abstract_value_fvar(*v, x, k, u);
            lemma_abstract_value_fvar(*b, x, k + 1, u);
        },
        _ => {},
    }
}

/// Holes applied to a term bring no free variable.
proof fn lemma_mvar_apps_fvars(base: Term, t: Term, u: Unique)
    requires
        mvar_apps(base, t),
        value_fvar(t, u),
    ensures
        value_fvar(base, u),
    decreases t,
{
    if t != base {
        if let Term::App(f, m) = t {
            assert(*m is MVar);
            assert(!value_fvar(*m, u));
            lemma_mvar_apps_fvars(base, *f, u);
        }
    }
}

/// A term applied to holes has the free variables of the term.
proof fn lemma_mvar_apps_within(base: Term, t: Term, lctx: Seq<LocalBinder>)
    requires
        mvar_apps(base, t),
        values_within(base, lctx),
    ensures
        values_within(t, lctx),
{
    assert forall|u: Unique| #[trigger] value_fvar(t, u) implies in_scope(lctx, u) by {
        lemma_mvar_apps_fvars(base, t, u);
    }
}

/// A term with no free variable is within any scope.
proof fn lemma_closed_within(t: Term, lctx: Seq<LocalBinder>)
    requires
        t is Error || t is Lit || t is Const || t is Sort || t is MVar,
    ensures
        values_within(t, lctx),
{
    assert forall|u: Unique| #[trigger] value_fvar(t, u) implies in_scope(lctx, u) by {
        assert(!value_fvar(t, u));
    }
}

/// What a name resolves to is a local in scope or a declaration.
proof fn lemma_resolve_within(
    lctx: Seq<LocalBinder>,
    ns: crate::namespace::Namespace,
    sigs: Seq<Term>,
    ps: Seq<crate::ids::Symbol>,
    ms: crate::ids::Symbol,
    r: (Term, Term),
)
    requires
        Some(r) == crate::lower::spec_resolve(lctx, ns, sigs, ps, ms),
    ensures
        values_within(r.0, lctx),
{
    lemma_last_named_facts(lctx, ms);
    if let Some(i) = last_named(lctx, ms) {
        assert(lctx[i].unique == lctx[i].unique);
        assert forall|u: Unique| #[trigger] value_fvar(r.0, u) implies in_scope(lctx, u) by {
            assert(lctx[i].unique == u);
        }
    }
}

/// Abstracting a local keeps the shape of an elaborated expression.
pub proof fn lemma_abstract_expr_shape(e: Expr, t: Term, x: Unique, k: nat)
    requires
        expr_shape(e, t),
    ensures
        expr_shape(e, spec_abstract_at(t, x, k)),
{
    lemma_abstract_expr_form(false, e, t, x, k);
}

/// Abstracting a local keeps the shape of an elaborated expression, strict or not.
pub proof fn lemma_abstract_expr_form(strict: bool, e: Expr, t: Term, x: Unique, k: nat)
    requires
        expr_form(strict, e, t),
    ensures
        expr_form(strict, e, spec_abstract_at(t, x, k)),
    decreases e, 2nat, t,
{
    let r = spec_abstract_at(t, x, k);
    match e {
        Expr::Literal(_) => assert(r == t),
        Expr::Name(_) => {
            match t {
                Term::FVar(u) => assert(r is FVar || r is BVar),
                Term::BVar(u) => assert(r is BVar),
                _ => assert(r == t),
            }
        },
        Expr::Paren { inner, .. } => match inner {
            None => assert(r == t),
            Some(i) => lemma_abstract_expr_form(strict, *i, t, x, k),
        },
        Expr::Block { stmts, .. } => lemma_abstract_block_form(strict, stmts, 0, false, t, x, k),
        Expr::App { .. } => if !strict && t is Error {
            assert(r == t);
        } else {
            lemma_abstract_app_form(strict, e, t, x, k);
        },
    }
}

proof fn lemma_abstract_app_form(strict: bool, e: Expr, t: Term, x: Unique, k: nat)
    requires
        app_form(strict, e, t),
    ensures
        app_form(strict, e, spec_abstract_at(t, x, k)),
    decreases e, 1nat, t,
{
    match e {
        Expr::App { func, arg, .. } => {
            if let Term::App(w, y) = t {
                match arg {
                    None => assert(spec_abstract_at(*y, x, k) is Error),
                    Some(a) => lemma_abstract_check_form(strict, *a, *y, x, k),
                }
                lemma_abstract_implicits_over(strict, func, *w, x, k);
            }
        },
        _ => {},
    }
}

proof fn lemma_abstract_implicits_over(strict: bool, func: Option<Box<Expr>>, w: Term, x: Unique, k: nat)
    requires
        implicits_over(strict, func, w),
    ensures
        implicits_over(strict, func, spec_abstract_at(w, x, k)),
    decreases func, 4nat, w,
{
    if head_shape(strict, func, w) {
        lemma_abstract_head_shape(strict, func, w, x, k);
    } else if let Term::App(w1, m) = w {
        assert(spec_abstract_at(*m, x, k) == *m);
        lemma_abstract_implicits_over(strict, func, *w1, x, k);
    }
}

proof fn lemma_abstract_head_shape(strict: bool, func: Option<Box<Expr>>, w: Term, x: Unique, k: nat)
    requires
        head_shape(strict, func, w),
    ensures
        head_shape(strict, func, spec_abstract_at(w, x, k)),
    decreases func, 3nat, w,
{
    match func {
        None => assert(spec_abstract_at(w, x, k) == w),
        Some(h) => match *h {
            Expr::App { .. } => lemma_abstract_app_form(strict, *h, w, x, k),
            _ => lemma_abstract_expr_form(strict, *h, w, x, k),
        },
    }
}

/// Abstracting a local keeps the shape of a checked expression.
pub proof fn lemma_abstract_check_shape(e: Expr, t: Term, x: Unique, k: nat)
    requires
        check_shape(e, t),
    ensures
        check_shape(e, spec_abstract_at(t, x, k)),
{
    lemma_abstract_check_form(false, e, t, x, k);
}

/// Abstracting a local keeps the shape of a checked expression, strict or not.
pub proof fn lemma_abstract_check_form(strict: bool, e: Expr, t: Term, x: Unique, k: nat)
    requires
        check_form(strict, e, t),
    ensures
        check_form(strict, e, spec_abstract_at(t, x, k)),
    decreases e, 6nat, t,
{
    match e {
        Expr::Block { stmts, .. } => lemma_abstract_block_form(strict, stmts, 0, true, t, x, k),
        _ => if !strict && t is Error {
            assert(spec_abstract_at(t, x, k) == t);
        } else {
            lemma_abstract_implicits_after(strict, e, t, x, k);
        },
    }
}

proof fn lemma_abstract_implicits_after(strict: bool, e: Expr, t: Term, x: Unique, k: nat)
    requires
        implicits_after(strict, e, t),
    ensures
        implicits_after(strict, e, spec_abstract_at(t, x, k)),
    decreases e, 5nat, t,
{
    if expr_form(strict, e, t) {
        lemma_abstract_expr_form(strict, e, t, x, k);
    } else if let Term::App(t1, m) = t {
        assert(spec_abstract_at(*m, x, k) == *m);
        lemma_abstract_implicits_after(strict, e, *t1, x, k);
    }
}

proof fn lemma_abstract_block_form(strict: bool, stmts: Vec<Stmt>, i: nat, checking: bool, t: Term, x: Unique, k: nat)
    requires
        block_form(strict, stmts, i, checking, t),
    ensures
        block_form(strict, stmts, i, checking, spec_abstract_at(t, x, k)),
    decreases stmts, stmts@.len() - i, t,
{
    if i >= stmts@.len() {
        assert(spec_abstract_at(t, x, k) == t);
    } else {
        match stmts@[i as int] {
            Stmt::Let { expr, .. } => {
                if let Term::Let(a, v, b) = t {
                    match expr {
                        None => assert(spec_abstract_at(*v, x, k) is Error),
                        Some(y) => lemma_abstract_expr_form(strict, y, *v, x, k),
                    }
                    if !strict && *b is Error {
                        assert(spec_abstract_at(*b, x, k + 1) is Error);
                    } else {
                        lemma_abstract_block_form(strict, stmts, i + 1, checking, *b, x, k + 1);
                    }
                } else {
                    assert(spec_abstract_at(t, x, k) == t);
                }
            },
            Stmt::Mutation { name: None, .. } => assert(spec_abstract_at(t, x, k) == t),
            Stmt::Mutation { name: Some(_), expr, .. } => {
                if let Term::Let(a, v, b) = t {
                    match expr {
                        None => assert(spec_abstract_at(*v, x, k) is Error),
                        Some(y) => lemma_abstract_expr_form(strict, y, *v, x, k),
                    }
                    if !strict && *b is Error {
                        assert(spec_abstract_at(*b, x, k + 1) is Error);
                    } else {
                        lemma_abstract_block_form(strict, stmts, i + 1, checking, *b, x, k + 1);
                    }
                } else {
                    assert(spec_abstract_at(t, x, k) == t);
                }
            },
            Stmt::Return { expr: None, .. } => assert(spec_abstract_at(t, x, k) == t),
            Stmt::Return { expr: Some(y), .. } => if checking {
                lemma_abstract_check_form(strict, y, t, x, k);
            } else {
                lemma_abstract_expr_form(strict, y, t, x, k);
            },
        }
    }
}

/// A hole applied to `base` and then more holes is `base` applied to holes.
proof fn lemma_mvar_apps_step(base: Term, m: Term, t: Term)
    requires
        m is MVar,
        mvar_apps(Term::App(Box::new(base), Box::new(m)), t),
    ensures
        mvar_apps(base, t),
    decreases t,
{
    if t != Term::App(Box::new(base), Box::new(m)) {
        if let Term::App(f, _) = t {
            lemma_mvar_apps_step(base, m, *f);
        }
    } else {
        assert(mvar_apps(base, base));
    }
}

/// Inserting implicit arguments applies the term to holes.
proof fn lemma_insert_implicits_apps(
    bodies: Seq<Option<Term>>,
    sols: Seq<(Unique, Term)>,
    next: nat,
    term: Term,
    ty: Term,
    fuel: nat,
    steps: nat,
    expected: Option<Term>,
)
    ensures
        mvar_apps(term, crate::app::spec_insert_implicits(bodies, sols, next, term, ty, fuel, steps, expected).1),
    decreases steps,
{
    if steps > 0 {
        let w = crate::app::reduced_or_same(bodies, sols, ty, fuel);
        if !(expected matches Some(e) && crate::app::spec_keeps_implicit(w, crate::app::reduced_or_same(bodies, sols, e, fuel))) {
            if let Term::Pi(info, dom, cod) = w {
                if crate::app::spec_inserts(w, next) {
                    let m = Term::MVar(Unique(next as u32));
                    let t2 = Term::App(Box::new(term), Box::new(m));
                    lemma_insert_implicits_apps(
                        bodies,
                        sols,
                        next + 1,
                        t2,
                        crate::subst::spec_instantiate_at(*cod, m, 0),
                        fuel,
                        (steps - 1) as nat,
                        expected,
                    );
                    lemma_mvar_apps_step(
                        term,
                        m,
                        crate::app::spec_insert_implicits(
                            bodies,
                            sols,
                            next + 1,
                            t2,
                            crate::subst::spec_instantiate_at(*cod, m, 0),
                            fuel,
                            (steps - 1) as nat,
                            expected,
                        ).1,
                    );
                }
            }
        }
    }
}

/// The function of an application applied to holes.
proof fn lemma_implicits_over_apps(strict: bool, func: Option<Box<Expr>>, base: Term, w: Term)
    requires
        head_shape(strict, func, base),
        mvar_apps(base, w),
    ensures
        implicits_over(strict, func, w),
    decreases w,
{
    if w != base {
        if let Term::App(w1, _) = w {
            lemma_implicits_over_apps(strict, func, base, *w1);
        }
    }
}

/// An inferred term applied to holes.
proof fn lemma_implicits_after_apps(strict: bool, e: Expr, base: Term, t: Term)
    requires
        expr_form(strict, e, base),
        mvar_apps(base, t),
    ensures
        implicits_after(strict, e, t),
    decreases t,
{
    if t != base {
        if let Term::App(t1, _) = t {
            lemma_implicits_after_apps(strict, e, base, *t1);
        }
    }
}

proof fn lemma_holes_prefix(old: Seq<MetaView>, new: Seq<MetaView>, holes: Seq<(crate::ids::Unique, Term)>, lctx: Seq<LocalBinder>)
    requires
        holes_added(old, new, holes, lctx),
    ensures
        old.is_prefix_of(new),
{
    assert(new.subrange(0, old.len() as int) =~= old);
}

proof fn lemma_push_prefix<A>(a: Seq<A>, b: Seq<A>)
    requires
        b.len() == a.len() + 1,
        b.drop_last() == a,
    ensures
        a.is_prefix_of(b),
{
    assert(b.subrange(0, a.len() as int) =~= a);
}

impl<'a> ElabCtx<'a> {
    /// Reports `builder` and returns the poisoned term and type.
    fn fail(&mut self, table: &SymbolTable, builder: Diag) -> (r: (Term, Term))
        requires
            ready(*old(self), table@),
        ensures
            r.0 is Error && r.1 is Error,
            expr_step(*old(self), table@, *final(self), table@),
            final(self).diagnostics@ == old(self).diagnostics@.push(builder.inner),
            final(self).mctx == old(self).mctx,
            final(self).gen_ == old(self).gen_,
    {
        let ghost s0 = *self;
        let r = self.error(builder);
        proof {
            lemma_frame_refl(s0, table@);
            assert(self.diagnostics@.drop_last() =~= s0.diagnostics@);
            lemma_push_prefix(s0.diagnostics@, self.diagnostics@);
        }
        r
    }

    /// Inserts implicit arguments into `state`, as `insert_implicits` does.
    fn implicits(&mut self, table: &SymbolTable, state: &mut AppState, expected: Option<&Term>, range: TextRange) -> (r: Result<(), Diag>)
        requires
            ready(*old(self), table@),
        ensures
            expr_step(*old(self), table@, *final(self), table@),
            final(self).diagnostics == old(self).diagnostics,
            r matches Err(d) ==> instance_diag(d, old(self).file, range),
            mvar_apps(old(state).term, final(state).term),
            ({
                let o = implicits_of(
                    *old(self),
                    old(state).term,
                    old(state).ty,
                    match expected {
                        Some(e) => Some(*e),
                        None => None,
                    },
                );
                &&& (r is Err <==> o.0)
                &&& final(state).term == o.1
                &&& final(state).ty == o.2
            }),
            final(self).mctx.solutions() == old(self).mctx.solutions(),
    {
        let ghost s0 = *self;
        let ghost st0 = *state;
        let r = self.insert_implicits(state, expected, range);
        proof {
            lemma_frame_refl(s0, table@);
            lemma_insert_implicits_apps(
                s0.env.bodies@,
                s0.mctx.solutions(),
                s0.gen_.next_id() as nat,
                st0.term,
                st0.ty,
                s0.fuel as nat,
                s0.fuel as nat,
                match expected {
                    Some(e) => Some(*e),
                    None => None,
                },
            );
            let o = crate::app::spec_insert_implicits(
                s0.env.bodies@,
                s0.mctx.solutions(),
                s0.gen_.next_id() as nat,
                old(state).term,
                old(state).ty,
                s0.fuel as nat,
                s0.fuel as nat,
                match expected {
                    Some(e) => Some(*e),
                    None => None,
                },
            );
            lemma_holes_prefix(s0.mctx.metas(), self.mctx.metas(), o.3, s0.lctx@);
        }
        r
    }

    /// Infers the type of an expression.
    pub fn infer(&mut self, table: &mut SymbolTable, expr: &Expr) -> (r: (Term, Term))
        requires
            old(table).wf(),
            ready(*old(self), old(table)@),
        ensures
            final(table).wf(),
            expr_step(*old(self), old(table)@, *final(self), final(table)@),
            expr_shape(*expr, r.0),
            quiet(*old(self), *final(self), final(table)@) ==> expr_form(true, *expr, r.0),
            values_within(r.0, old(self).lctx@),
            match *expr {
                Expr::Literal(_) => literal_typed(*old(self), r),
                Expr::Name(n) => name_resolved(*old(self), *final(self), final(table)@, n, r),
                Expr::Paren { inner: None, .. } => r.0 is Error && r.1 is Error,
                Expr::Block { stmts, .. } => (stmts@.len() == 0 ==> unit_pair(*old(self), r)) && block_type(
                    stmts,
                    0,
                    None,
                    old(self).lang_items@,
                    r.1,
                ),
                Expr::App { .. } => r.0 is App || (r.0 is Error && r.1 is Error
                    && final(self).diagnostics@.len() > old(self).diagnostics@.len()),
                _ => true,
            },
        decreases expr, 3nat, 0nat,
    {
        let ghost t0 = table@;
        match expr {
            Expr::Literal(lit) => {
                let ghost s0 = *self;
                let term = self.lower_literal(lit);
                proof {
                    lemma_closed_within(term, old(self).lctx@);
                }
                let ghost s1 = *self;
                proof {
                    lemma_frame_refl(s0, t0);
                    assert(elab_frame(s0, t0, s1, t0));
                }
                let span = expr.range();
                let ty = match self.infer_term_with_diagnostics(table, &term, span) {
                    Some(t) => t,
                    None => self.error_term(),
                };
                proof {
                    lemma_keeps_refl(s1.mctx.solutions());
                    lemma_prefix_refl(s1.mctx.metas());
                    lemma_prefix_refl(s1.lctx@);
                    lemma_prefix_refl(s1.autobound@);
                    lemma_prefix_refl(s1.diagnostics@);
                    if self.diagnostics@ != s1.diagnostics@ {
                        lemma_push_prefix(s1.diagnostics@, self.diagnostics@);
                    }
                    assert(elab_frame(s1, t0, *self, t0));
                    lemma_frame_trans(s0, t0, s1, t0, *self, t0);
                }
                (term, ty)
            },
            Expr::Name(name) => {
                let r = self.resolve_name(table, name);
                proof {
                    if r.0 is Error || r.0 is Sort {
                        lemma_closed_within(r.0, old(self).lctx@);
                    } else {
                        assert(self.diagnostics == old(self).diagnostics);
                        let m = name.member.unwrap();
                        let ps = choose|ps: Seq<crate::ids::Symbol>| #![auto] crate::lower::names_texts(table@, ps, crate::lower::path_texts(*name))
                            && Some(r) == crate::lower::spec_resolve(old(self).lctx@, *old(self).namespace, old(self).env.signatures@, ps, sym_for(table@, m@));
                        lemma_resolve_within(old(self).lctx@, *old(self).namespace, old(self).env.signatures@, ps, sym_for(table@, m@), r);
                    }
                    assert(values_within(r.0, old(self).lctx@));
                }
                r
            },
            Expr::Paren { inner, .. } => match inner {
                Some(e) => self.infer(table, e),
                None => {
                    proof {
                        lemma_frame_refl(*self, t0);
                    }
                    let p = self.poison();
                    proof {
                        lemma_closed_within(p.0, old(self).lctx@);
                    }
                    p
                },
            },
            Expr::Block { stmts, range } => {
                let r = self.lower_stmt(table, stmts, 0, *range, None);
                assert(values_within(r.0, old(self).lctx@));
                r
            },
            Expr::App { .. } => {
                let r = self.infer_app(table, expr);
                assert(values_within(r.0, old(self).lctx@));
                r
            },
        }
    }

    /// Elaborates `expr` as a value of the expected type: a block is checked
    /// statement by statement, anything else is inferred, given the implicit
    /// arguments the expected type does not take, and unified with it.
    pub fn check(&mut self, table: &mut SymbolTable, expr: &Expr, expected: &Expected) -> (r: Term)
        requires
            old(table).wf(),
            ready(*old(self), old(table)@),
        ensures
            final(table).wf(),
            expr_step(*old(self), old(table)@, *final(self), final(table)@),
            check_shape(*expr, r),
            quiet(*old(self), *final(self), final(table)@) ==> check_form(true, *expr, r),
            values_within(r, old(self).lctx@),
            !(*expr is Block) ==> {
                ||| exists|mid: ElabCtx<'a>, ty: Term| #[trigger] checked_against(
                    mid,
                    *final(self),
                    final(table)@,
                    expr.spec_range(),
                    ty,
                    *expected,
                ) && elab_steps(*old(self), old(table)@, mid, final(table)@) && mid.lctx@ == old(self).lctx@
                ||| r is Error && final(self).diagnostics@.len() > 0 && instance_diag(
                    Diag { inner: final(self).diagnostics@.last() },
                    old(self).file,
                    expr.spec_range(),
                )
            },
        decreases expr, 4nat, 0nat,
    {
        let ghost t0 = table@;
        match expr {
            Expr::Block { stmts, range } => {
                let (t, _) = self.lower_stmt(table, stmts, 0, *range, Some(expected));
                t
            },
            _ => {
                let range = expr.range();
                let (term, ty) = self.infer(table, expr);
                let ghost s1 = *self;
                let ghost t1 = table@;
                let ghost base = term;
                let (term, ty) = match self.insert_implicits_for_expected(table, term, ty, &expected.ty, range) {
                    Some(p) => p,
                    None => {
                        proof {
                            lemma_frame_trans(*old(self), t0, s1, t1, *self, t1);
                        }
                        return self.error_term();
                    },
                };
                let ghost s2 = *self;
                self.expect_type(table, range, &ty, expected);
                assert(checked_against(s2, *self, table@, range, ty, *expected));
                proof {
                    lemma_frame_trans(*old(self), t0, s1, t1, s2, t1);
                    lemma_frame_trans(*old(self), t0, s2, t1, *self, t1);
                    lemma_implicits_after_apps(false, *expr, base, term);
                    if quiet(*old(self), *self, table@) {
                        assert(quiet(*old(self), s1, t1));
                        lemma_implicits_after_apps(true, *expr, base, term);
                    }
                    lemma_mvar_apps_within(base, term, old(self).lctx@);
                }
                term
            },
        }
    }

    /// Elaborates the statements of a block from the `i`-th on; the block's
    /// value is what its `return` gives, unit where it has none.
    pub fn lower_stmt(
        &mut self,
        table: &mut SymbolTable,
        stmts: &Vec<Stmt>,
        i: usize,
        range: TextRange,
        expected: Option<&Expected>,
    ) -> (r: (Term, Term))
        requires
            old(table).wf(),
            ready(*old(self), old(table)@),
            i <= stmts@.len(),
        ensures
            final(table).wf(),
            expr_step(*old(self), old(table)@, *final(self), final(table)@),
            block_shape(*stmts, i as nat, expected is Some, r.0),
            quiet(*old(self), *final(self), final(table)@) ==> block_form(true, *stmts, i as nat, expected is Some, r.0)
                && block_type_form(true, *stmts, i as nat, expected_ty(expected), old(self).lang_items@, r.1),
            values_within(r.0, old(self).lctx@),
            block_type(*stmts, i as nat, expected_ty(expected), old(self).lang_items@, r.1),
            i == stmts@.len() ==> unit_pair(*old(self), r),
            i < stmts@.len() ==> match stmts@[i as int] {
                Stmt::Let { .. } => r.0 is Let || (r.0 is Error && r.1 is Error && (!crate::lower::has_room(
                    final(table)@,
                ) || final(self).gen_.next_id() == u32::MAX)),
                Stmt::Mutation { name: None, .. } => r.0 is Error && r.1 is Error,
                Stmt::Mutation { name: Some(n), range: origin, .. } => {
                    &&& r.0 is Let || (r.0 is Error && r.1 is Error && (!crate::lower::has_room(final(table)@)
                        || final(self).gen_.next_id() == u32::MAX || last_named(
                        old(self).lctx@,
                        sym_for(final(table)@, n@),
                    ) is None))
                    &&& (crate::lower::has_room(old(table)@) && last_named(old(self).lctx@, sym_for(final(table)@, n@)) is None)
                        ==> {
                        &&& r.0 is Error && r.1 is Error
                        &&& final(self).diagnostics@.len() > 0
                        &&& diag_head(
                            final(self).diagnostics@.last(),
                            old(self).file,
                            origin,
                            "cannot mutate undefined variable `"@ + n@ + "`"@,
                        )
                        &&& exists|mid: ElabCtx<'a>| #[trigger] expr_step(*old(self), old(table)@, mid, final(table)@)
                            && final(self).mctx == mid.mctx && final(self).gen_ == mid.gen_
                            && final(self).diagnostics@ == mid.diagnostics@.push(final(self).diagnostics@.last())
                    }
                },
                Stmt::Return { expr: None, .. } => unit_pair(*old(self), r),
                Stmt::Return { expr: Some(_), .. } => expected matches Some(x) ==> r.1 == x.ty,
            },
        decreases stmts, stmts@.len() - i, 2nat,
    {
        let ghost t0 = table@;
        if i == stmts.len() {
            let r = self.unit_value(table, range, expected);
            return r;
        }
        match &stmts[i] {
            Stmt::Let { name, expr, range: origin } => {
                let sym = match name {
                    Some(n) => match intern(table, n.as_str()) {
                        Some(s) => Some(s),
                        None => {
                            proof {
                                lemma_frame_table(*self, t0, table@);
                            }
                            return self.poison();
                        },
                    },
                    None => None,
                };
                proof {
                    lemma_frame_table(*self, t0, table@);
                }
                let ghost t1 = table@;
                let (value, ty) = match expr {
                    Some(e) => self.infer(table, e),
                    None => {
                        proof {
                            lemma_frame_refl(*self, t1);
                        }
                        self.poison()
                    },
                };
                proof {
                    lemma_frame_trans(*old(self), t0, *old(self), t1, *self, table@);
                }
                self.bind_and_continue(table, stmts, i, range, expected, sym, None, value, ty, *origin)
            },
            Stmt::Mutation { name, expr, range: origin } => {
                let sym = match name {
                    Some(n) => match intern(table, n.as_str()) {
                        Some(s) => Some(s),
                        None => {
                            proof {
                                lemma_frame_table(*self, t0, table@);
                            }
                            return self.poison();
                        },
                    },
                    None => None,
                };
                proof {
                    lemma_frame_table(*self, t0, table@);
                }
                let ghost t1 = table@;
                let (value, ty) = match expr {
                    Some(e) => self.infer(table, e),
                    None => {
                        proof {
                            lemma_frame_refl(*self, t1);
                        }
                        self.poison()
                    },
                };
                proof {
                    lemma_frame_trans(*old(self), t0, *old(self), t1, *self, table@);
                }
                let s = match sym {
                    Some(s) => s,
                    None => return self.poison(),
                };
                proof {
                    let n = name.unwrap();
                    lemma_sym_for_stable(t1, table@, s, n@);
                    lemma_last_named_facts(self.lctx@, s);
                }
                let latest = match self.lctx.find_by_name(s) {
                    Some(b) => b.unique,
                    None => {
                        let n = match name {
                            Some(n) => n,
                            None => return self.poison(),
                        };
                        let mut msg: Vec<char> = Vec::new();
                        push_str(&mut msg, "cannot mutate undefined variable `");
                        push_str(&mut msg, n.as_str());
                        push_str(&mut msg, "`");
                        let m = string_from_chars(msg.as_slice());
                        let d = self.mk_error(*origin, m.as_str());
                        let ghost s2 = *self;
                        let r = self.fail(table, d);
                        proof {
                            lemma_frame_trans(*old(self), t0, s2, table@, *self, table@);
                            assert(expr_step(*old(self), t0, s2, table@));
                            assert(self.diagnostics@ == s2.diagnostics@.push(self.diagnostics@.last()));
                        }
                        return r;
                    },
                };
                let ghost t2 = table@;
                let r = self.bind_and_continue(table, stmts, i, range, expected, sym, Some(latest), value, ty, *origin);
                proof {
                    let n = name.unwrap();
                    lemma_sym_for_stable(t1, table@, s, n@);
                    assert(last_named(old(self).lctx@, s) is Some);
                }
                r
            },
            Stmt::Return { expr, .. } => match expr {
                Some(e) => match expected {
                    Some(x) => {
                        let term = self.check(table, e, x);
                        (term, x.ty.copy())
                    },
                    None => self.infer(table, e),
                },
                None => self.unit_value(table, range, expected),
            },
        }
    }

    /// Brings the value of the `i`-th statement into scope as a local named
    /// `name`, elaborates the statements after it, and closes them over it.
    fn bind_and_continue(
        &mut self,
        table: &mut SymbolTable,
        stmts: &Vec<Stmt>,
        i: usize,
        range: TextRange,
        expected: Option<&Expected>,
        name: Option<Symbol>,
        parent: Option<crate::ids::Unique>,
        value: Term,
        ty: Term,
        origin: TextRange,
    ) -> (r: (Term, Term))
        requires
            old(table).wf(),
            ready(*old(self), old(table)@),
            i < stmts@.len(),
            name matches Some(s) ==> (s.0 as nat) < old(table)@.len(),
            values_within(value, old(self).lctx@),
        ensures
            values_within(r.0, old(self).lctx@),
            r.0 is Error ==> final(self).gen_.next_id() == u32::MAX,
            final(table).wf(),
            expr_step(*old(self), old(table)@, *final(self), final(table)@),
            r.0 is Let || (r.0 is Error && r.1 is Error),
            r.0 is Error || (r.0 matches Term::Let(_, v, b) && *v == value && (*b is Error || block_shape(
                *stmts,
                (i + 1) as nat,
                expected is Some,
                *b,
            ))),
            r.1 is Error || block_type(*stmts, (i + 1) as nat, expected_ty(expected), old(self).lang_items@, r.1),
            quiet(*old(self), *final(self), final(table)@) ==> {
                &&& r.0 matches Term::Let(_, v, b) && *v == value && block_form(
                    true,
                    *stmts,
                    (i + 1) as nat,
                    expected is Some,
                    *b,
                )
                &&& block_type_form(true, *stmts, (i + 1) as nat, expected_ty(expected), old(self).lang_items@, r.1)
            },
        decreases stmts, stmts@.len() - i, 1nat,
    {
        let ghost t0 = table@;
        if !self.gen_.has_next() {
            proof {
                lemma_frame_refl(*self, t0);
            }
            let p = self.poison();
            proof {
                lemma_closed_within(p.0, old(self).lctx@);
            }
            return p;
        }
        let saved = self.lctx.copy();
        let ghost s0 = *self;
        let fvar = self.fresh_fvar(name, ty.copy(), BinderInfo::Explicit, origin, parent);
        let ghost s1 = *self;
        proof {
            lemma_prefix_push(s0.lctx@, self.lctx@.last());
            lemma_frame_refl(s0, t0);
            assert forall|k: int| 0 <= k < self.lctx@.len() implies ((#[trigger] self.lctx@[k]).name matches Some(n)
                ==> (n.0 as nat) < t0.len()) by {
                if k < s0.lctx@.len() {
                    assert(self.lctx@[k] == s0.lctx@[k]);
                }
            }
            assert(elab_frame(s0, t0, s1, t0));
        }
        let n = stmts.len();
        let (body, body_ty) = self.lower_stmt(table, stmts, i + 1, range, expected);
        let closed = if abstract_fits_exec(&body, 0) {
            proof {
                lemma_abstract_block_form(false, *stmts, (i + 1) as nat, expected is Some, body, fvar, 0);
                if quiet(s1, *self, table@) {
                    lemma_abstract_block_form(true, *stmts, (i + 1) as nat, expected is Some, body, fvar, 0);
                }
                assert forall|u: Unique| #[trigger] value_fvar(spec_abstract_at(body, fvar, 0), u) implies in_scope(s0.lctx@, u) by {
                    lemma_abstract_value_fvar(body, fvar, 0, u);
                    assert(in_scope(s1.lctx@, u));
                    let k = choose|k: int| 0 <= k < s1.lctx@.len() && #[trigger] s1.lctx@[k].unique == u;
                    if k < s0.lctx@.len() {
                        assert(s1.lctx@[k] == s0.lctx@[k]);
                    }
                }
            }
            abstract_fvar(&body, fvar)
        } else {
            let ghost s3 = *self;
            let d = self.mk_error(range, "block nested too deeply");
            let r = self.fail(table, d).0;
            proof {
                lemma_frame_trans(s1, t0, s3, table@, *self, table@);
            }
            r
        };
        let ghost s2 = *self;
        self.lctx = saved;
        proof {
            if closed is Error {
                lemma_closed_within(closed, s0.lctx@);
            }
            let let_term = Term::Let(Box::new(ty), Box::new(value), Box::new(closed));
            assert forall|u: Unique| #[trigger] value_fvar(let_term, u) implies in_scope(old(self).lctx@, u) by {
                if value_fvar(value, u) {
                } else {
                    assert(value_fvar(closed, u));
                }
            }
            lemma_frame_trans(s0, t0, s1, t0, s2, table@);
            assert(elab_steps(s0, t0, *self, table@));
            lemma_prefix_refl(self.lctx@);
            lemma_ready_grows(s0, t0, table@);
        }
        (Term::Let(Box::new(ty), Box::new(value), Box::new(closed)), body_ty)
    }

    /// Infers the type of an application: the head, then each argument in
    /// turn after the implicit arguments before it.
    pub fn infer_app(&mut self, table: &mut SymbolTable, expr: &Expr) -> (r: (Term, Term))
        requires
            old(table).wf(),
            ready(*old(self), old(table)@),
            expr is App,
        ensures
            final(table).wf(),
            expr_step(*old(self), old(table)@, *final(self), final(table)@),
            r.0 is App || (r.0 is Error && r.1 is Error),
            r.0 is Error || app_shape(*expr, r.0),
            r.0 is Error ==> final(self).diagnostics@.len() > old(self).diagnostics@.len(),
            quiet(*old(self), *final(self), final(table)@) ==> app_form(true, *expr, r.0),
            values_within(r.0, old(self).lctx@),
        decreases expr, 2nat, 0nat,
    {
        match self.app_spine(table, expr) {
            Ok(st) => (st.term, st.ty),
            Err(b) => {
                let ghost s1 = *self;
                let ghost t1 = table@;
                let r = self.fail(table, b);
                proof {
                    lemma_frame_trans(*old(self), old(table)@, s1, t1, *self, t1);
                }
                r
            },
        }
    }

    /// The application `expr` with all its arguments consumed, or the
    /// diagnostic that stopped it.
    fn app_spine(&mut self, table: &mut SymbolTable, expr: &Expr) -> (r: Result<AppState, Diag>)
        requires
            old(table).wf(),
            ready(*old(self), old(table)@),
            expr is App,
        ensures
            final(table).wf(),
            expr_step(*old(self), old(table)@, *final(self), final(table)@),
            r matches Ok(st) ==> st.term is App && app_shape(*expr, st.term),
            r matches Err(d) ==> spine_error(*expr, old(self).file, d),
            r matches Ok(st) ==> values_within(st.term, old(self).lctx@),
            quiet(*old(self), *final(self), final(table)@) ==> (r matches Ok(st) ==> app_form(true, *expr, st.term)),
        decreases expr, 1nat, 0nat,
    {
        let ghost t0 = table@;
        let state = match expr {
            Expr::App { func: Some(f), .. } => match &**f {
                Expr::App { .. } => match self.app_spine(table, f) {
                    Ok(st) => st,
                    Err(d) => return Err(d),
                },
                _ => {
                    let (term, ty) = self.infer(table, f);
                    AppState { term, ty }
                },
            },
            _ => {
                proof {
                    lemma_frame_refl(*self, t0);
                }
                let (term, ty) = self.poison();
                AppState { term, ty }
            },
        };
        let ghost s1 = *self;
        let ghost t1 = table@;
        let ghost base = state.term;
        let ghost state_ty_ghost = state.ty;
        proof {
            match expr {
                Expr::App { func, .. } => {
                    assert(head_shape(false, *func, base));
                    if quiet(*old(self), s1, t1) {
                        assert(head_shape(true, *func, base));
                    }
                },
                _ => {},
            }
        }
        let r = match expr {
            Expr::App { arg, range, .. } => self.consume_arg(table, state, arg, *range),
            _ => Err(self.unsupported_instance_implicit(expr.range())),
        };
        proof {
            lemma_frame_trans(*old(self), t0, s1, t1, *self, table@);
            match expr {
                Expr::App { func, arg, range } => {
                    if r is Err {
                        let d = r->Err_0;
                        let ar = arg_range(*arg, *range);
                        if !instance_diag(d, s1.file, ar) {
                            let o = implicits_of(s1, base, state_ty_ghost, None);
                            let fty = crate::app::reduced_or_same(s1.env.bodies@, s1.mctx.solutions(), o.2, s1.fuel as nat);
                            assert(diag_head(d.inner, s1.file, ar, "expected a function, found "@ + quoted(term_debug(s1.env.items@, t1, fty))));
                        }
                        assert(arg_error(d, old(self).file, ar));
                    }
                    if r is Ok {
                        let st = r->Ok_0;
                        if let Term::App(w, _) = st.term {
                            lemma_implicits_over_apps(false, *func, base, *w);
                            if quiet(*old(self), *self, table@) {
                                assert(quiet(*old(self), s1, t1));
                                lemma_implicits_over_apps(true, *func, base, *w);
                            }
                        }
                    }
                },
                _ => {},
            }
        }
        r
    }

    /// The domain and codomain of the function type `func_ty`, which must take
    /// an explicit argument; a poisoned type stands for both.
    pub fn ensure_explicit_function_type(&self, table: &SymbolTable, func_ty: &Term, range: TextRange) -> (r: Result<(Term, Term), Diag>)
        ensures
            match *func_ty {
                Term::Pi(BinderInfo::Explicit, d, c) => r == Ok::<(Term, Term), Diag>((*d, *c)),
                Term::Pi(BinderInfo::InstanceImplicit, _, _) => r matches Err(d) && instance_diag(d, self.file, range),
                Term::Error(_) => r == Ok::<(Term, Term), Diag>((*func_ty, *func_ty)),
                _ => r matches Err(d) && diag_head(
                    d.inner,
                    self.file,
                    range,
                    "expected a function, found "@ + quoted(term_debug(self.env.items@, table@, *func_ty)),
                ),
            },
    {
        match func_ty {
            Term::Pi(BinderInfo::Explicit, d, c) => Ok(((**d).copy(), (**c).copy())),
            Term::Pi(BinderInfo::InstanceImplicit, _, _) => Err(self.unsupported_instance_implicit(range)),
            Term::Error(_) => Ok((func_ty.copy(), func_ty.copy())),
            _ => Err(self.expected_function(table, range, func_ty)),
        }
    }

    /// Inserts the implicit arguments of `term : ty` that `expected_ty` does
    /// not take; `None` after reporting a binder that needs instance search.
    pub fn insert_implicits_for_expected(
        &mut self,
        table: &SymbolTable,
        term: Term,
        ty: Term,
        expected_ty: &Term,
        range: TextRange,
    ) -> (r: Option<(Term, Term)>)
        requires
            ready(*old(self), table@),
        ensures
            expr_step(*old(self), table@, *final(self), table@),
            r is Some ==> final(self).diagnostics == old(self).diagnostics,
            r is None ==> final(self).diagnostics@.len() == old(self).diagnostics@.len() + 1
                && final(self).diagnostics@.drop_last() == old(self).diagnostics@
                && instance_diag(Diag { inner: final(self).diagnostics@.last() }, old(self).file, range),
            r matches Some(p) ==> mvar_apps(term, p.0),
    {
        let mut state = AppState { term, ty };
        match self.implicits(table, &mut state, Some(expected_ty), range) {
            Ok(()) => Some((state.term, state.ty)),
            Err(b) => {
                let ghost s1 = *self;
                let ghost d = b;
                self.fail(table, b);
                proof {
                    lemma_frame_trans(*old(self), table@, s1, table@, *self, table@);
                    assert(self.diagnostics@.drop_last() =~= old(self).diagnostics@);
                    assert(Diag { inner: self.diagnostics@.last() } == d);
                }
                None
            },
        }
    }

    /// Applies `state` to the argument `arg` of an application at `range`:
    /// implicit arguments first, then the argument checked against the domain.
    fn consume_arg(&mut self, table: &mut SymbolTable, state: AppState, arg: &Option<Box<Expr>>, range: TextRange) -> (r: Result<AppState, Diag>)
        requires
            old(table).wf(),
            ready(*old(self), old(table)@),
            values_within(state.term, old(self).lctx@),
        ensures
            r matches Ok(st) ==> values_within(st.term, old(self).lctx@),
            quiet(*old(self), *final(self), final(table)@) ==> (r matches Ok(st) ==> (st.term matches Term::App(_, y)
                && match *arg {
                None => *y is Error,
                Some(a) => check_form(true, *a, *y),
            })),
            final(table).wf(),
            expr_step(*old(self), old(table)@, *final(self), final(table)@),
            r matches Ok(st) ==> st.term matches Term::App(w, y) && mvar_apps(state.term, *w) && match *arg {
                None => *y is Error,
                Some(a) => check_shape(*a, *y),
            },
            ({
                let o = implicits_of(*old(self), state.term, state.ty, None);
                let fty = crate::app::reduced_or_same(
                    old(self).env.bodies@,
                    old(self).mctx.solutions(),
                    o.2,
                    old(self).fuel as nat,
                );
                let ar = arg_range(*arg, range);
                if o.0 {
                    r matches Err(d) && instance_diag(d, old(self).file, ar)
                } else {
                    match fty {
                        Term::Pi(BinderInfo::Explicit, _, c) => r matches Ok(st) && st.term matches Term::App(w, y)
                            && *w == o.1 && (instantiate_fits(*c, *y, 0) ==> st.ty == spec_instantiate_at(*c, *y, 0))
                            && (!instantiate_fits(*c, *y, 0) ==> st.ty is Error),
                        Term::Error(_) => r matches Ok(st) && st.term matches Term::App(w, _) && *w == o.1
                            && st.ty is Error,
                        Term::Pi(BinderInfo::InstanceImplicit, _, _) => r matches Err(d) && instance_diag(
                            d,
                            old(self).file,
                            ar,
                        ),
                        _ => r matches Err(d) && diag_head(
                            d.inner,
                            old(self).file,
                            ar,
                            "expected a function, found "@ + quoted(term_debug(old(self).env.items@, old(table)@, fty)),
                        ),
                    }
                }
            }),
        decreases arg, 0nat, 0nat,
    {
        let ghost t0 = table@;
        let arg_range = match arg {
            Some(a) => a.range(),
            None => range,
        };
        let mut st = state;
        match self.implicits(table, &mut st, None, arg_range) {
            Ok(()) => {},
            Err(d) => return Err(d),
        }
        let ghost s1 = *self;
        let fty = match self.whnf(&st.ty) {
            Some(w) => w,
            None => st.ty.copy(),
        };
        let (dom, cod) = match self.ensure_explicit_function_type(table, &fty, arg_range) {
            Ok(p) => p,
            Err(d) => return Err(d),
        };
        let arg_term = match arg {
            Some(e) => {
                let expected = Expected::new(dom, ExpectedReason::Unspecified);
                self.check(table, e, &expected)
            },
            None => {
                proof {
                    lemma_frame_refl(*self, table@);
                }
                self.poison().0
            },
        };
        proof {
            lemma_frame_trans(*old(self), t0, s1, t0, *self, table@);
        }
        let ty = if instantiate_fits_exec(&cod, &arg_term, 0) {
            instantiate(&cod, &arg_term)
        } else {
            self.error_term()
        };
        proof {
            if fty is Error {
                assert(spec_instantiate_at(cod, arg_term, 0) is Error);
            }
            lemma_mvar_apps_within(state.term, st.term, old(self).lctx@);
            if arg_term is Error {
                lemma_closed_within(arg_term, old(self).lctx@);
            }
            let t2 = Term::App(Box::new(st.term), Box::new(arg_term));
            assert forall|u: Unique| #[trigger] value_fvar(t2, u) implies in_scope(old(self).lctx@, u) by {
                if value_fvar(st.term, u) {
                } else {
                    assert(value_fvar(arg_term, u));
                }
            }
        }
        Ok(AppState { term: Term::App(Box::new(st.term), Box::new(arg_term)), ty })
    }
}

} // verus!
