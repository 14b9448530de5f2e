//! Type inference for core terms: checks a term against the local context,
//! the metavariables and the signatures of the environment, and computes its
//! type, solving metavariables by unification on the way.

use vstd::prelude::*;
use crate::ctx::ElabCtx;
use crate::diagnostics::TextRange;
use crate::env::spec_signature;
use crate::ids::{ItemId, Unique};
use crate::lang_items::LangItem;
use crate::literals::{Literal, NumberSuffix, NumberValue};
use crate::local::{last_unique, lemma_last_unique_facts, LocalBinder};
use crate::meta::{find_meta, lemma_find_meta_facts, MetaView};
use crate::reduce::{spec_whnf, whnf_with_mvars};
use crate::subst::{abstract_fits, abstract_fits_exec, abstract_fvar, instantiate, instantiate_fits, instantiate_fits_exec, spec_abstract_at, spec_instantiate_at, spec_shift_at};
use crate::term::{size, BinderInfo, Level, Term};
use crate::unify::{spec_eq_term, UnifyError};

verus! {

/// Why the type of a term could not be inferred.
#[derive(Debug)]
pub enum InferTermError {
    /// A bound variable outside every binder.
    UnboundBVar(usize),
    /// A free variable that is not in the local context.
    UnknownFVar(Unique),
    /// A metavariable that was never created.
    UnknownMVar(Unique),
    /// A constant with no signature in the environment.
    UnknownConst(ItemId),
    /// `term` is applied, but its type `found` is not a function type.
    ExpectedFunction { term: Term, found: Term },
    /// `term` is used as a type, but its type `found` is not a sort.
    ExpectedType { term: Term, found: Term },
    /// `term` has type `found` where `expected` was needed.
    TypeMismatch { term: Term, found: Term, expected: Term, cause: UnifyError },
    /// The file declares no item for a literal's type.
    MissingLangItem(LangItem),
    /// The reduction budget, the supply of fresh names or the range of
    /// de Bruijn indices ran out while working on `term`.
    Exhausted { term: Term },
}

/// The lang item that types a literal.
pub open spec fn spec_literal_lang_item(lit: Literal) -> LangItem {
    match lit {
        Literal::Text(_) => LangItem::Str,
        Literal::Numeric(n) => match n.suffix {
            Some(NumberSuffix::I8) => LangItem::Int8,
            Some(NumberSuffix::I16) => LangItem::Int16,
            Some(NumberSuffix::I32) => LangItem::Int32,
            Some(NumberSuffix::I64) => LangItem::Int64,
            Some(NumberSuffix::U8) => LangItem::UInt8,
            Some(NumberSuffix::U16) => LangItem::UInt16,
            Some(NumberSuffix::U32) => LangItem::UInt32,
            Some(NumberSuffix::U64) => LangItem::UInt64,
            Some(NumberSuffix::F32) => LangItem::Float32,
            Some(NumberSuffix::F64) => LangItem::Float64,
            None => match n.value {
                NumberValue::Integer(_) => LangItem::Int32,
                NumberValue::Float { .. } => LangItem::Float64,
            },
        },
    }
}

/// The lang item that types `lit`.
pub fn literal_lang_item(lit: &Literal) -> (r: LangItem)
    ensures
        r == spec_literal_lang_item(*lit),
{
    match lit {
        Literal::Text(_) => LangItem::Str,
        Literal::Numeric(n) => match n.suffix {
            Some(NumberSuffix::I8) => LangItem::Int8,
            Some(NumberSuffix::I16) => LangItem::Int16,
            Some(NumberSuffix::I32) => LangItem::Int32,
            Some(NumberSuffix::I64) => LangItem::Int64,
            Some(NumberSuffix::U8) => LangItem::UInt8,
            Some(NumberSuffix::U16) => LangItem::UInt16,
            Some(NumberSuffix::U32) => LangItem::UInt32,
            Some(NumberSuffix::U64) => LangItem::UInt64,
            Some(NumberSuffix::F32) => LangItem::Float32,
            Some(NumberSuffix::F64) => LangItem::Float64,
            None => match &n.value {
                NumberValue::Integer(_) => LangItem::Int32,
                NumberValue::Float { .. } => LangItem::Float64,
            },
        },
    }
}

/// The local a binder of type `ty` is opened as, named `x`.
pub open spec fn opened_binder(x: Unique, ty: Term, info: BinderInfo) -> LocalBinder {
    LocalBinder {
        unique: x,
        name: None,
        ty,
        info,
        value: None,
        origin: TextRange { start: 0, end: 0 },
        parent: None,
    }
}

/// Outcome of inferring a type: the result, the solutions and the next fresh name afterwards.
pub type InferOutcome<T> = (Result<T, InferTermError>, Seq<(Unique, Term)>, nat);

/// Opening a binder with a free variable keeps the size of its body.
pub proof fn lemma_size_open(t: Term, x: Unique, k: nat)
    ensures
        size(spec_instantiate_at(t, Term::FVar(x), k)) == size(t),
    decreases t,
{
    match t {
        Term::BVar(i) => {
            if i == k && k > 0 {
                assert(spec_shift_at(Term::FVar(x), k, 0) == Term::FVar(x));
            }
        },
        Term::App(f, a) => {
            lemma_size_open(*f, x, k);
            lemma_size_open(*a, x, k);
        },
        Term::Lam(_, a, b) | Term::Pi(_, a, b) | Term::Sigma(_, a, b) => {
            lemma_size_open(*a, x, k);
            lemma_size_open(*b, x, k + 1);
        },
        Term::Let(a, v, b) => {
            lemma_size_open(*a, x, k);
            lemma_size_open(*v, x, k);
            lemma_size_open(*b, x, k + 1);
        },
        _ => {},
    }
}

/// The type of `t`: `bodies`, `sigs` and `lang` come from the environment,
/// `metas` are the holes, `lctx` the locals in scope, `sols` the solutions so
/// far, `next` the next fresh name and `fuel` the budget of each reduction.
pub open spec fn spec_infer(
    bodies: Seq<Option<Term>>,
    sigs: Seq<Term>,
    lang: Map<LangItem, ItemId>,
    metas: Seq<MetaView>,
    lctx: Seq<LocalBinder>,
    sols: Seq<(Unique, Term)>,
    next: nat,
    t: Term,
    fuel: nat,
) -> InferOutcome<Term>
    decreases size(t), 0nat,
{
    match t {
        Term::BVar(i) => (Err(InferTermError::UnboundBVar(i)), sols, next),
        Term::FVar(id) => match last_unique(lctx, id) {
            Some(k) => (Ok(lctx[k].ty), sols, next),
            None => (Err(InferTermError::UnknownFVar(id)), sols, next),
        },
        Term::MVar(id) => match find_meta(metas, id) {
            Some(k) => (Ok(metas[k].1), sols, next),
            None => (Err(InferTermError::UnknownMVar(id)), sols, next),
        },
        Term::Const(c) => match spec_signature(sigs, c) {
            Some(ty) => (Ok(ty), sols, next),
            None => (Err(InferTermError::UnknownConst(c)), sols, next),
        },
        Term::Sort(l) => (Ok(Term::Sort(Level::Succ(Box::new(l)))), sols, next),
        Term::App(f, x) => {
            let r1 = spec_infer(bodies, sigs, lang, metas, lctx, sols, next, *f, fuel);
            match r1.0 {
                Err(e) => (Err(e), r1.1, r1.2),
                Ok(fty) => match spec_whnf(bodies, r1.1, fty, fuel) {
                    None => (Err(InferTermError::Exhausted { term: fty }), r1.1, r1.2),
                    Some(w) => match w {
                        Term::Pi(_, p, res) => {
                            let r2 = spec_infer(bodies, sigs, lang, metas, lctx, r1.1, r1.2, *x, fuel);
                            match r2.0 {
                                Err(e) => (Err(e), r2.1, r2.2),
                                Ok(xty) => {
                                    let u = spec_eq_term(bodies, metas, r2.1, xty, *p, fuel);
                                    match u.0 {
                                        Err(c) => (
                                            Err(
                                                InferTermError::TypeMismatch {
                                                    term: *x,
                                                    found: xty,
                                                    expected: *p,
                                                    cause: c,
                                                },
                                            ),
                                            u.1,
                                            r2.2,
                                        ),
                                        Ok(()) => if instantiate_fits(*res, *x, 0) {
                                            (Ok(spec_instantiate_at(*res, *x, 0)), u.1, r2.2)
                                        } else {
                                            (Err(InferTermError::Exhausted { term: *res }), u.1, r2.2)
                                        },
                                    }
                                },
                            }
                        },
                        _ => (Err(InferTermError::ExpectedFunction { term: *f, found: w }), r1.1, r1.2),
                    },
                },
            }
        },
        Term::Lam(info, p, body) => {
            let s = spec_infer_sort(bodies, sigs, lang, metas, lctx, sols, next, *p, fuel);
            match s.0 {
                Err(e) => (Err(e), s.1, s.2),
                Ok(_) => if s.2 >= u32::MAX || !instantiate_fits(*body, Term::FVar(Unique(s.2 as u32)), 0) {
                    (Err(InferTermError::Exhausted { term: t }), s.1, s.2)
                } else {
                    let x = Unique(s.2 as u32);
                    proof {
                        lemma_size_open(*body, x, 0);
                    }
                    let r = spec_infer(
                        bodies,
                        sigs,
                        lang,
                        metas,
                        lctx.push(opened_binder(x, *p, info)),
                        s.1,
                        s.2 + 1,
                        spec_instantiate_at(*body, Term::FVar(x), 0),
                        fuel,
                    );
                    match r.0 {
                        Err(e) => (Err(e), r.1, r.2),
                        Ok(bty) => if abstract_fits(bty, 0) {
                            (
                                Ok(Term::Pi(info, p, Box::new(spec_abstract_at(bty, x, 0)))),
                                r.1,
                                r.2,
                            )
                        } else {
                            (Err(InferTermError::Exhausted { term: bty }), r.1, r.2)
                        },
                    }
                },
            }
        },
        Term::Pi(info, p, body) | Term::Sigma(info, p, body) => {
            let s = spec_infer_sort(bodies, sigs, lang, metas, lctx, sols, next, *p, fuel);
            match s.0 {
                Err(e) => (Err(e), s.1, s.2),
                Ok(l1) => if s.2 >= u32::MAX || !instantiate_fits(*body, Term::FVar(Unique(s.2 as u32)), 0) {
                    (Err(InferTermError::Exhausted { term: t }), s.1, s.2)
                } else {
                    let x = Unique(s.2 as u32);
                    proof {
                        lemma_size_open(*body, x, 0);
                    }
                    let r = spec_infer_sort(
                        bodies,
                        sigs,
                        lang,
                        metas,
                        lctx.push(opened_binder(x, *p, info)),
                        s.1,
                        s.2 + 1,
                        spec_instantiate_at(*body, Term::FVar(x), 0),
                        fuel,
                    );
                    match r.0 {
                        Err(e) => (Err(e), r.1, r.2),
                        Ok(l2) => (
                            Ok(
                                Term::Sort(
                                    if t is Pi {
                                        Level::IMax(Box::new(l1), Box::new(l2))
                                    } else {
                                        Level::Max(Box::new(l1), Box::new(l2))
                                    },
                                ),
                            ),
                            r.1,
                            r.2,
                        ),
                    }
                },
            }
        },
        Term::Let(ty, v, body) => {
            let s = spec_infer_sort(bodies, sigs, lang, metas, lctx, sols, next, *ty, fuel);
            match s.0 {
                Err(e) => (Err(e), s.1, s.2),
                Ok(_) => {
                    let r1 = spec_infer(bodies, sigs, lang, metas, lctx, s.1, s.2, *v, fuel);
                    match r1.0 {
                        Err(e) => (Err(e), r1.1, r1.2),
                        Ok(vty) => {
                            let u = spec_eq_term(bodies, metas, r1.1, vty, *ty, fuel);
                            match u.0 {
                                Err(c) => (
                                    Err(
                                        InferTermError::TypeMismatch {
                                            term: *v,
                                            found: vty,
                                            expected: *ty,
                                            cause: c,
                                        },
                                    ),
                                    u.1,
                                    r1.2,
                                ),
                                Ok(()) => if r1.2 >= u32::MAX || !instantiate_fits(
                                    *body,
                                    Term::FVar(Unique(r1.2 as u32)),
                                    0,
                                ) {
                                    (Err(InferTermError::Exhausted { term: t }), u.1, r1.2)
                                } else {
                                    let x = Unique(r1.2 as u32);
                                    proof {
                                        lemma_size_open(*body, x, 0);
                                    }
                                    let r = spec_infer(
                                        bodies,
                                        sigs,
                                        lang,
                                        metas,
                                        lctx.push(opened_binder(x, *ty, BinderInfo::Explicit)),
                                        u.1,
                                        r1.2 + 1,
                                        spec_instantiate_at(*body, Term::FVar(x), 0),
                                        fuel,
                                    );
                                    match r.0 {
                                        Err(e) => (Err(e), r.1, r.2),
                                        Ok(bty) => if abstract_fits(bty, 0) && instantiate_fits(
                                            spec_abstract_at(bty, x, 0),
                                            *v,
                                            0,
                                        ) {
                                            (
                                                Ok(
                                                    spec_instantiate_at(
                                                        spec_abstract_at(bty, x, 0),
                                                        *v,
                                                        0,
                                                    ),
                                                ),
                                                r.1,
                                                r.2,
                                            )
                                        } else {
                                            (Err(InferTermError::Exhausted { term: bty }), r.1, r.2)
                                        },
                                    }
                                },
                            }
                        },
                    }
                },
            }
        },
        Term::Lit(l) => {
            let item = spec_literal_lang_item(l);
            if lang.contains_key(item) {
                (Ok(Term::Const(lang[item])), sols, next)
            } else {
                (Err(InferTermError::MissingLangItem(item)), sols, next)
            }
        },
        Term::Error(_) => (Ok(t), sols, next),
    }
}

/// The universe of `t`, which must be a type.
pub open spec fn spec_infer_sort(
    bodies: Seq<Option<Term>>,
    sigs: Seq<Term>,
    lang: Map<LangItem, ItemId>,
    metas: Seq<MetaView>,
    lctx: Seq<LocalBinder>,
    sols: Seq<(Unique, Term)>,
    next: nat,
    t: Term,
    fuel: nat,
) -> InferOutcome<Level>
    decreases size(t), 1nat,
{
    let r = spec_infer(bodies, sigs, lang, metas, lctx, sols, next, t, fuel);
    match r.0 {
        Err(e) => (Err(e), r.1, r.2),
        Ok(ty) => match spec_whnf(bodies, r.1, ty, fuel) {
            None => (Err(InferTermError::Exhausted { term: ty }), r.1, r.2),
            Some(w) => match w {
                Term::Sort(l) => (Ok(l), r.1, r.2),
                _ => (Err(InferTermError::ExpectedType { term: t, found: w }), r.1, r.2),
            },
        },
    }
}

/// What inference leaves unchanged in the context, and keeps well formed.
pub open spec fn infer_keeps<'a>(before: ElabCtx<'a>, after: ElabCtx<'a>) -> bool {
    &&& after.env == before.env
    &&& after.lang_items == before.lang_items
    &&& after.namespace == before.namespace
    &&& after.fuel == before.fuel
    &&& after.lctx@ == before.lctx@
    &&& after.mctx.metas() == before.mctx.metas()
    &&& after.mctx.wf()
    &&& after.current_decl == before.current_decl
    &&& after.file == before.file
    &&& after.diagnostics == before.diagnostics
    &&& after.autobound == before.autobound
    &&& after.frames == before.frames
}

/// `spec_infer` on the state of `cx`.
pub open spec fn infer_of<'a>(cx: ElabCtx<'a>, t: Term) -> InferOutcome<Term> {
    spec_infer(
        cx.env.bodies@,
        cx.env.signatures@,
        cx.lang_items@,
        cx.mctx.metas(),
        cx.lctx@,
        cx.mctx.solutions(),
        cx.gen_.next_id() as nat,
        t,
        cx.fuel as nat,
    )
}

/// `spec_infer_sort` on the state of `cx`.
pub open spec fn infer_sort_of<'a>(cx: ElabCtx<'a>, t: Term) -> InferOutcome<Level> {
    spec_infer_sort(
        cx.env.bodies@,
        cx.env.signatures@,
        cx.lang_items@,
        cx.mctx.metas(),
        cx.lctx@,
        cx.mctx.solutions(),
        cx.gen_.next_id() as nat,
        t,
        cx.fuel as nat,
    )
}

impl<'a> ElabCtx<'a> {
    /// Infers the type of a core term.
    pub fn infer_term(&mut self, term: &Term) -> (r: Result<Term, InferTermError>)
        requires
            old(self).mctx.wf(),
            old(self).lang_items.wf(),
        ensures
            infer_keeps(*old(self), *final(self)),
            (r, final(self).mctx.solutions(), final(self).gen_.next_id() as nat) == infer_of(
                *old(self),
                *term,
            ),
        decreases size(*term), 1nat,
    {
        match term {
            Term::BVar(i) => Err(InferTermError::UnboundBVar(*i)),
            Term::FVar(id) => {
                proof {
                    lemma_last_unique_facts(self.lctx@, *id);
                }
                match self.lctx.find_by_unique(*id) {
                    Some(b) => Ok(b.ty.copy()),
                    None => Err(InferTermError::UnknownFVar(*id)),
                }
            },
            Term::MVar(id) => {
                proof {
                    lemma_find_meta_facts(self.mctx.metas(), *id);
                }
                match self.mctx.get_meta(*id) {
                    Some(m) => Ok(m.ty.copy()),
                    None => Err(InferTermError::UnknownMVar(*id)),
                }
            },
            Term::Const(c) => match self.env.signature(*c) {
                Some(ty) => Ok(ty.copy()),
                None => Err(InferTermError::UnknownConst(*c)),
            },
            Term::Sort(l) => Ok(Term::Sort(Level::Succ(Box::new(l.copy())))),
            Term::App(f, x) => self.infer_term_app(term, f, x),
            Term::Lam(info, p, body) => self.infer_lam(term, *info, p, body),
            Term::Pi(info, p, body) => self.infer_pi_sigma(term, *info, p, body),
            Term::Sigma(info, p, body) => self.infer_pi_sigma(term, *info, p, body),
            Term::Let(ty, v, body) => self.infer_let(term, ty, v, body),
            Term::Lit(l) => {
                let item = literal_lang_item(l);
                match self.lang_items.get(item) {
                    Some(id) => Ok(Term::Const(id)),
                    None => Err(InferTermError::MissingLangItem(item)),
                }
            },
            Term::Error(_) => Ok(term.copy()),
        }
    }

    /// Infers the universe of a term that must be a type.
    pub fn infer_sort(&mut self, term: &Term) -> (r: Result<Level, InferTermError>)
        requires
            old(self).mctx.wf(),
            old(self).lang_items.wf(),
        ensures
            infer_keeps(*old(self), *final(self)),
            (r, final(self).mctx.solutions(), final(self).gen_.next_id() as nat) == infer_sort_of(
                *old(self),
                *term,
            ),
        decreases size(*term), 2nat,
    {
        let ty = match self.infer_term(term) {
            Ok(ty) => ty,
            Err(e) => return Err(e),
        };
        match whnf_with_mvars(self.env, &self.mctx, &ty, self.fuel) {
            None => Err(InferTermError::Exhausted { term: ty }),
            Some(w) => match w {
                Term::Sort(l) => Ok(l),
                _ => Err(InferTermError::ExpectedType { term: term.copy(), found: w }),
            },
        }
    }

    /// Checks that `found`, the type of `term`, unifies with `expected`.
    fn ensure_def_eq(&mut self, term: &Term, found: &Term, expected: &Term) -> (r: Result<
        (),
        InferTermError,
    >)
        requires
            old(self).mctx.wf(),
        ensures
            final(self).env == old(self).env,
            final(self).lang_items == old(self).lang_items,
            final(self).namespace == old(self).namespace,
            final(self).fuel == old(self).fuel,
            final(self).lctx == old(self).lctx,
            final(self).gen_ == old(self).gen_,
            final(self).mctx.metas() == old(self).mctx.metas(),
            final(self).mctx.wf(),
            final(self).current_decl == old(self).current_decl,
            final(self).file == old(self).file,
            final(self).diagnostics == old(self).diagnostics,
            final(self).autobound == old(self).autobound,
            final(self).frames == old(self).frames,
            ({
                let u = spec_eq_term(
                    old(self).env.bodies@,
                    old(self).mctx.metas(),
                    old(self).mctx.solutions(),
                    *found,
                    *expected,
                    old(self).fuel as nat,
                );
                &&& final(self).mctx.solutions() == u.1
                &&& match u.0 {
                    Ok(()) => r is Ok,
                    Err(c) => r == Err::<(), InferTermError>(
                        InferTermError::TypeMismatch {
                            term: *term,
                            found: *found,
                            expected: *expected,
                            cause: c,
                        },
                    ),
                }
            }),
    {
        match self.unify(found, expected) {
            Ok(()) => Ok(()),
            Err(cause) => Err(
                InferTermError::TypeMismatch {
                    term: term.copy(),
                    found: found.copy(),
                    expected: expected.copy(),
                    cause,
                },
            ),
        }
    }

    fn infer_term_app(&mut self, term: &Term, f: &Term, x: &Term) -> (r: Result<Term, InferTermError>)
        requires
            old(self).mctx.wf(),
            old(self).lang_items.wf(),
            *term == Term::App(Box::new(*f), Box::new(*x)),
        ensures
            infer_keeps(*old(self), *final(self)),
            (r, final(self).mctx.solutions(), final(self).gen_.next_id() as nat) == infer_of(
                *old(self),
                *term,
            ),
        decreases size(*term), 0nat,
    {
        let fty = match self.infer_term(f) {
            Ok(t) => t,
            Err(e) => return Err(e),
        };
        let w = match whnf_with_mvars(self.env, &self.mctx, &fty, self.fuel) {
            Some(w) => w,
            None => return Err(InferTermError::Exhausted { term: fty }),
        };
        match w {
            Term::Pi(_, p, res) => {
                let xty = match self.infer_term(x) {
                    Ok(t) => t,
                    Err(e) => return Err(e),
                };
                match self.ensure_def_eq(x, &xty, &p) {
                    Ok(()) => {},
                    Err(e) => return Err(e),
                }
                if !instantiate_fits_exec(&res, x, 0) {
                    return Err(InferTermError::Exhausted { term: *res });
                }
                Ok(instantiate(&res, x))
            },
            _ => Err(InferTermError::ExpectedFunction { term: f.copy(), found: w }),
        }
    }

    /// Opens a binder of type `p` as a fresh local, runs `infer_term` on the
    /// opened `body`, and closes the local again.
    fn infer_lam(&mut self, term: &Term, info: BinderInfo, p: &Term, body: &Term) -> (r: Result<
        Term,
        InferTermError,
    >)
        requires
            old(self).mctx.wf(),
            old(self).lang_items.wf(),
            *term == Term::Lam(info, Box::new(*p), Box::new(*body)),
        ensures
            infer_keeps(*old(self), *final(self)),
            (r, final(self).mctx.solutions(), final(self).gen_.next_id() as nat) == infer_of(
                *old(self),
                *term,
            ),
        decreases size(*term), 0nat,
    {
        match self.infer_sort(p) {
            Ok(_) => {},
            Err(e) => return Err(e),
        }
        if !self.gen_.has_next() || !instantiate_fits_exec(body, &Term::FVar(Unique(0)), 0) {
            return Err(InferTermError::Exhausted { term: term.copy() });
        }
        let level = self.lctx.level();
        let ghost outer = self.lctx@;
        let x = self.fresh_fvar(None, p.copy(), info, TextRange::empty(), None);
        let opened = instantiate(body, &Term::FVar(x));
        proof {
            lemma_size_open(*body, x, 0);
        }
        let r = self.infer_term(&opened);
        self.lctx.pop_to(level);
        proof {
            assert(self.lctx@ =~= outer);
        }
        match r {
            Err(e) => Err(e),
            Ok(bty) => {
                if !abstract_fits_exec(&bty, 0) {
                    return Err(InferTermError::Exhausted { term: bty });
                }
                Ok(Term::Pi(info, Box::new(p.copy()), Box::new(abstract_fvar(&bty, x))))
            },
        }
    }

    fn infer_pi_sigma(&mut self, term: &Term, info: BinderInfo, p: &Term, body: &Term) -> (r: Result<
        Term,
        InferTermError,
    >)
        requires
            old(self).mctx.wf(),
            old(self).lang_items.wf(),
            *term == Term::Pi(info, Box::new(*p), Box::new(*body)) || *term == Term::Sigma(
                info,
                Box::new(*p),
                Box::new(*body),
            ),
        ensures
            infer_keeps(*old(self), *final(self)),
            (r, final(self).mctx.solutions(), final(self).gen_.next_id() as nat) == infer_of(
                *old(self),
                *term,
            ),
        decreases size(*term), 0nat,
    {
        let l1 = match self.infer_sort(p) {
            Ok(l) => l,
            Err(e) => return Err(e),
        };
        if !self.gen_.has_next() || !instantiate_fits_exec(body, &Term::FVar(Unique(0)), 0) {
            return Err(InferTermError::Exhausted { term: term.copy() });
        }
        let level = self.lctx.level();
        let ghost outer = self.lctx@;
        let x = self.fresh_fvar(None, p.copy(), info, TextRange::empty(), None);
        let opened = instantiate(body, &Term::FVar(x));
        proof {
            lemma_size_open(*body, x, 0);
        }
        let r = self.infer_sort(&opened);
        self.lctx.pop_to(level);
        proof {
            assert(self.lctx@ =~= outer);
        }
        match r {
            Err(e) => Err(e),
            Ok(l2) => {
                let is_pi = match term {
                    Term::Pi(..) => true,
                    _ => false,
                };
                let level = if is_pi {
                    Level::IMax(Box::new(l1), Box::new(l2))
                } else {
                    Level::Max(Box::new(l1), Box::new(l2))
                };
                Ok(Term::Sort(level))
            },
        }
    }

    fn infer_let(&mut self, term: &Term, ty: &Term, v: &Term, body: &Term) -> (r: Result<
        Term,
        InferTermError,
    >)
        requires
            old(self).mctx.wf(),
            old(self).lang_items.wf(),
            *term == Term::Let(Box::new(*ty), Box::new(*v), Box::new(*body)),
        ensures
            infer_keeps(*old(self), *final(self)),
            (r, final(self).mctx.solutions(), final(self).gen_.next_id() as nat) == infer_of(
                *old(self),
                *term,
            ),
        decreases size(*term), 0nat,
    {
        match self.infer_sort(ty) {
            Ok(_) => {},
            Err(e) => return Err(e),
        }
        let vty = match self.infer_term(v) {
            Ok(t) => t,
            Err(e) => return Err(e),
        };
        match self.ensure_def_eq(v, &vty, ty) {
            Ok(()) => {},
            Err(e) => return Err(e),
        }
        if !self.gen_.has_next() || !instantiate_fits_exec(body, &Term::FVar(Unique(0)), 0) {
            return Err(InferTermError::Exhausted { term: term.copy() });
        }
        let level = self.lctx.level();
        let ghost outer = self.lctx@;
        let x = self.fresh_fvar(None, ty.copy(), BinderInfo::Explicit, TextRange::empty(), None);
        let opened = instantiate(body, &Term::FVar(x));
        proof {
            lemma_size_open(*body, x, 0);
        }
        let r = self.infer_term(&opened);
        self.lctx.pop_to(level);
        proof {
            assert(self.lctx@ =~= outer);
        }
        match r {
            Err(e) => Err(e),
            Ok(bty) => {
                if !abstract_fits_exec(&bty, 0) {
                    return Err(InferTermError::Exhausted { term: bty });
                }
                let closed = abstract_fvar(&bty, x);
                if !instantiate_fits_exec(&closed, v, 0) {
                    return Err(InferTermError::Exhausted { term: bty });
                }
                Ok(instantiate(&closed, v))
            },
        }
    }
}


/// The type inferred for a function is a function type that takes its
/// argument as the function does and over the same domain: the binder's
/// passing and type are kept, whatever the body.
pub proof fn lemma_infer_lam_keeps_binder(
    bodies: Seq<Option<Term>>,
    sigs: Seq<Term>,
    lang: Map<LangItem, ItemId>,
    metas: Seq<MetaView>,
    lctx: Seq<LocalBinder>,
    sols: Seq<(Unique, Term)>,
    next: nat,
    info: BinderInfo,
    dom: Term,
    body: Term,
    fuel: nat,
)
    requires
        spec_infer(
            bodies,
            sigs,
            lang,
            metas,
            lctx,
            sols,
            next,
            Term::Lam(info, Box::new(dom), Box::new(body)),
            fuel,
        ).0 is Ok,
    ensures
        spec_infer(
            bodies,
            sigs,
            lang,
            metas,
            lctx,
            sols,
            next,
            Term::Lam(info, Box::new(dom), Box::new(body)),
            fuel,
        ).0 matches Ok(Term::Pi(i2, d2, _)) && i2 == info && *d2 == dom,
{
}


/// A function type, and a pair type, is a type: what is inferred for it is
/// a universe, the largest of its domain's and its body's (impredicatively
/// for a function type).
pub proof fn lemma_infer_binder_type_is_sort(
    bodies: Seq<Option<Term>>,
    sigs: Seq<Term>,
    lang: Map<LangItem, ItemId>,
    metas: Seq<MetaView>,
    lctx: Seq<LocalBinder>,
    sols: Seq<(Unique, Term)>,
    next: nat,
    t: Term,
    fuel: nat,
)
    requires
        t is Pi || t is Sigma,
        spec_infer(bodies, sigs, lang, metas, lctx, sols, next, t, fuel).0 is Ok,
    ensures
        spec_infer(bodies, sigs, lang, metas, lctx, sols, next, t, fuel).0 matches Ok(Term::Sort(l)) && (t is Pi
            ==> l is IMax) && (t is Sigma ==> l is Max),
{
}


/// The innermost binder for `u` is found by `last_unique`.
proof fn lemma_last_unique_innermost(lctx: Seq<LocalBinder>, u: Unique, k: int)
    requires
        0 <= k < lctx.len(),
        lctx[k].unique == u,
        forall|j: int| k < j < lctx.len() ==> #[trigger] lctx[j].unique != u,
    ensures
        last_unique(lctx, u) == Some(k),
    decreases lctx.len(),
{
    if k < lctx.len() - 1 {
        assert(lctx[lctx.len() - 1].unique != u);
        assert(lctx.drop_last()[k] == lctx[k]);
        assert forall|j: int| k < j < lctx.drop_last().len() implies #[trigger] lctx.drop_last()[j].unique != u by {
            assert(lctx.drop_last()[j] == lctx[j]);
            assert(lctx[j].unique != u);
        }
        lemma_last_unique_innermost(lctx.drop_last(), u, k);
    }
}

/// A local has the type of its innermost binder in the context.
pub proof fn lemma_infer_local_type(
    bodies: Seq<Option<Term>>,
    sigs: Seq<Term>,
    lang: Map<LangItem, ItemId>,
    metas: Seq<MetaView>,
    lctx: Seq<LocalBinder>,
    sols: Seq<(Unique, Term)>,
    next: nat,
    u: Unique,
    k: int,
    fuel: nat,
)
    requires
        0 <= k < lctx.len(),
        lctx[k].unique == u,
        forall|j: int| k < j < lctx.len() ==> #[trigger] lctx[j].unique != u,
    ensures
        spec_infer(bodies, sigs, lang, metas, lctx, sols, next, Term::FVar(u), fuel) == (
            Ok::<Term, InferTermError>(lctx[k].ty),
            sols,
            next,
        ),
{
    lemma_last_unique_innermost(lctx, u, k);
}

} // verus!
