//! Elaboration of declarations: the signature of every item, the body of a
//! definition, and the parameters and constructors of an inductive.

use vstd::prelude::*;
use crate::ast::{Binder, ConstructorDecl, Decl, Type};
use crate::ctx::{ElabCtx, Frame};
use crate::diagnostics::{Diagnostic, TextRange};
use crate::collect::{copy_diag, diag_view, file_diagnostics, flatten, spec_file_diagnostics};
use crate::env::{Env, ItemData};

use crate::ids::{ItemId, ItemKind, SymbolTable, Unique};
use crate::lang_items::LanguageItems;
use crate::lower::{has_room, spec_close, quiet, is_poisoned, lowered_form, lemma_abstract_keeps_form, lemma_close_wraps, binder_ty_shape, implicit_tele, lemma_abstract_keeps_shape, lemma_close_implicit, lemma_close_tele, lemma_lowered_no_mvar, lemma_tele_abstract, lemma_tele_no_mvar, lowered_shape, tele, close_binders, elab_frame, elab_steps, lemma_frame_refl, lemma_frame_trans, lemma_prefix_refl, lemma_prefix_trans, lemma_ready_grows, ready, spec_binder_info, BinderForm};
use crate::namespace::{names_below, Namespace};
use crate::report::{diag_head, Expected, ExpectedReason};
use crate::term::{has_error, has_mvar, FreeBinder, Term};
use crate::zonk::spec_collect_unsolved;
use crate::expr::{check_form, check_shape, lemma_abstract_check_form, lemma_abstract_check_shape};
use crate::subst::spec_abstract_at;
use crate::debug::{push_decimal, spec_term_text, symbol_text, write_symbol, write_term};
use crate::text::{nat_decimal, push_str, string_from_chars};

verus! {

/// The elaborated type of a declaration.
#[derive(Debug)]
pub struct Signature {
    pub ty: Term,
}

/// The elaborated value of a definition.
#[derive(Debug)]
pub struct DefBody {
    pub value: Term,
}

/// The elaborated parameters of an inductive, and its constructors.
#[derive(Debug)]
pub struct InductiveData {
    pub num_params: usize,
    pub binders: Vec<Term>,
    pub ctors: Vec<ItemId>,
}

/// The declaration at position `i` of a file, if there is one.
pub open spec fn decl_at(source: Seq<Decl>, i: u32) -> Option<Decl> {
    if (i as int) < source.len() {
        Some(source[i as int])
    } else {
        None
    }
}

/// The declaration that `data` describes is one that takes binders, a return
/// type and nothing else it needs: a `def` or constructor with a return type,
/// or an inductive with one.
pub open spec fn has_return_type(items: Seq<ItemData>, source: Seq<Decl>, data: ItemData) -> bool {
    match data.kind {
        ItemKind::Def => decl_at(source, data.ast_index) matches Some(Decl::Def(d)) && d.return_type is Some,
        ItemKind::Inductive => decl_at(source, data.ast_index) matches Some(Decl::Inductive(d))
            && d.return_type is Some,
        ItemKind::Constructor => match data.parent {
            Some(p) => (p.0 as int) < items.len() && match decl_at(source, items[p.0 as int].ast_index) {
                Some(Decl::Inductive(ind)) => (data.ast_index as int) < ind.constructors@.len()
                    && ind.constructors@[data.ast_index as int].return_type is Some,
                _ => false,
            },
            None => false,
        },
    }
}

/// The constructor declaration that `data` describes, if the source has it.
pub open spec fn ctor_decl(items: Seq<ItemData>, source: Seq<Decl>, data: ItemData) -> Option<ConstructorDecl> {
    match data.parent {
        Some(p) => if (p.0 as int) < items.len() {
            match decl_at(source, items[p.0 as int].ast_index) {
                Some(Decl::Inductive(ind)) => if (data.ast_index as int) < ind.constructors@.len() {
                    Some(ind.constructors@[data.ast_index as int])
                } else {
                    None
                },
                _ => None,
            }
        } else {
            None
        },
        None => None,
    }
}

/// `t` is a return type `rt` lowered under function types for `binders`.
pub open spec fn pi_over(binders: Seq<Binder>, rt: Type, t: Term) -> bool {
    t is Error || (tele(binders, 0, BinderForm::Pi, t) matches Some(b) && lowered_shape(rt, b))
}

/// `t` is the type of the declaration `data` describes, before its
/// auto-bound names are bound: for a `def` or a constructor its return type
/// under its binders, for an inductive its return type, lowered; the
/// poisoned term where the declaration has no return type.
pub open spec fn sig_shape(items: Seq<ItemData>, source: Seq<Decl>, data: ItemData, t: Term) -> bool {
    match data.kind {
        ItemKind::Def => match decl_at(source, data.ast_index) {
            Some(Decl::Def(d)) => match d.return_type {
                Some(rt) => pi_over(d.binders@, rt, t),
                None => t is Error,
            },
            _ => t is Error,
        },
        ItemKind::Inductive => match decl_at(source, data.ast_index) {
            Some(Decl::Inductive(d)) => match d.return_type {
                Some(rt) => lowered_shape(rt, t),
                None => t is Error,
            },
            _ => t is Error,
        },
        ItemKind::Constructor => match ctor_decl(items, source, data) {
            Some(c) => match c.return_type {
                Some(rt) => pi_over(c.binders@, rt, t),
                None => t is Error,
            },
            None => t is Error,
        },
    }
}

/// `t` is a return type `rt` lowered under function types for `binders`,
/// with no function type of the return type poisoned as a whole.
pub open spec fn pi_strict(binders: Seq<Binder>, rt: Type, t: Term) -> bool {
    tele(binders, 0, BinderForm::Pi, t) matches Some(b) && lowered_form(true, rt, b)
}

/// `t` is the type of the declaration `data` describes, as `sig_shape`
/// says, but never poisoned as a whole where the declaration has a return
/// type whose lowering is not.
pub open spec fn sig_strict(items: Seq<ItemData>, source: Seq<Decl>, data: ItemData, t: Term) -> bool {
    match data.kind {
        ItemKind::Def => match decl_at(source, data.ast_index) {
            Some(Decl::Def(d)) => match d.return_type {
                Some(rt) => pi_strict(d.binders@, rt, t),
                None => t is Error,
            },
            _ => t is Error,
        },
        ItemKind::Inductive => match decl_at(source, data.ast_index) {
            Some(Decl::Inductive(d)) => match d.return_type {
                Some(rt) => lowered_form(true, rt, t),
                None => t is Error,
            },
            _ => t is Error,
        },
        ItemKind::Constructor => match ctor_decl(items, source, data) {
            Some(c) => match c.return_type {
                Some(rt) => pi_strict(c.binders@, rt, t),
                None => t is Error,
            },
            None => t is Error,
        },
    }
}

/// The strict type of a declaration keeps its shape when a local is abstracted.
pub proof fn lemma_sig_strict_abstract(items: Seq<ItemData>, source: Seq<Decl>, data: ItemData, t: Term, x: Unique, k: nat)
    requires
        sig_strict(items, source, data, t),
    ensures
        sig_strict(items, source, data, spec_abstract_at(t, x, k)),
{
    let r = spec_abstract_at(t, x, k);
    if t is Error {
        assert(r == t);
    } else {
        let (bs, rt) = match data.kind {
            ItemKind::Def => match decl_at(source, data.ast_index) {
                Some(Decl::Def(d)) => (d.binders@, d.return_type),
                _ => (Seq::empty(), None),
            },
            ItemKind::Inductive => match decl_at(source, data.ast_index) {
                Some(Decl::Inductive(d)) => (Seq::empty(), d.return_type),
                _ => (Seq::empty(), None),
            },
            ItemKind::Constructor => match ctor_decl(items, source, data) {
                Some(c) => (c.binders@, c.return_type),
                None => (Seq::empty(), None),
            },
        };
        if let Some(rt) = rt {
            if data.kind == ItemKind::Inductive {
                lemma_abstract_keeps_form(true, rt, t, x, k);
            } else {
                let b = tele(bs, 0, BinderForm::Pi, t).unwrap();
                lemma_tele_abstract(bs, 0, BinderForm::Pi, t, x, k);
                lemma_abstract_keeps_form(true, rt, b, x, k + bs.len());
            }
        }
    }
}

/// A declaration's type keeps its shape when a local is abstracted.
pub proof fn lemma_sig_shape_abstract(items: Seq<ItemData>, source: Seq<Decl>, data: ItemData, t: Term, x: Unique, k: nat)
    requires
        sig_shape(items, source, data, t),
    ensures
        sig_shape(items, source, data, spec_abstract_at(t, x, k)),
{
    let r = spec_abstract_at(t, x, k);
    if t is Error {
        assert(r == t);
    } else {
        let (bs, rt) = match data.kind {
            ItemKind::Def => match decl_at(source, data.ast_index) {
                Some(Decl::Def(d)) => (d.binders@, d.return_type),
                _ => (Seq::empty(), None),
            },
            ItemKind::Inductive => match decl_at(source, data.ast_index) {
                Some(Decl::Inductive(d)) => (Seq::empty(), d.return_type),
                _ => (Seq::empty(), None),
            },
            ItemKind::Constructor => match ctor_decl(items, source, data) {
                Some(c) => (c.binders@, c.return_type),
                None => (Seq::empty(), None),
            },
        };
        if let Some(rt) = rt {
            if data.kind == ItemKind::Inductive {
                lemma_abstract_keeps_shape(rt, t, x, k);
            } else {
                let b = tele(bs, 0, BinderForm::Pi, t).unwrap();
                lemma_tele_abstract(bs, 0, BinderForm::Pi, t, x, k);
                lemma_abstract_keeps_shape(rt, b, x, k + bs.len());
            }
        }
    }
}

/// A declaration's type has no hole.
pub proof fn lemma_sig_shape_no_mvar(items: Seq<ItemData>, source: Seq<Decl>, data: ItemData, t: Term, m: Unique)
    requires
        sig_shape(items, source, data, t),
    ensures
        !has_mvar(t, m),
{
    if !(t is Error) {
        let (bs, rt) = match data.kind {
            ItemKind::Def => match decl_at(source, data.ast_index) {
                Some(Decl::Def(d)) => (d.binders@, d.return_type),
                _ => (Seq::empty(), None),
            },
            ItemKind::Inductive => match decl_at(source, data.ast_index) {
                Some(Decl::Inductive(d)) => (Seq::empty(), d.return_type),
                _ => (Seq::empty(), None),
            },
            ItemKind::Constructor => match ctor_decl(items, source, data) {
                Some(c) => (c.binders@, c.return_type),
                None => (Seq::empty(), None),
            },
        };
        if let Some(rt) = rt {
            if data.kind == ItemKind::Inductive {
                lemma_lowered_no_mvar(rt, t, m);
            } else {
                let b = tele(bs, 0, BinderForm::Pi, t).unwrap();
                lemma_lowered_no_mvar(rt, b, m);
                lemma_tele_no_mvar(bs, 0, BinderForm::Pi, t, m);
            }
        }
    }
}

/// `t` is the value of the `def` at position `i`, before its auto-bound
/// names are bound: its body checked against its return type, under
/// functions for its binders; a universe still to be determined where it
/// has no body.
pub open spec fn def_shape(source: Seq<Decl>, i: u32, t: Term) -> bool {
    match decl_at(source, i) {
        Some(Decl::Def(d)) => match d.body {
            Some(e) => t is Error || (tele(d.binders@, 0, BinderForm::Lam, t) matches Some(b) && check_shape(e, b)),
            None => t is Sort || t is Error,
        },
        _ => false,
    }
}

/// `t` is the value of the `def` at position `i`, as `def_shape` says, but
/// never poisoned as a whole: its body strictly checked under functions for
/// its binders, or a universe still to be determined.
pub open spec fn def_strict(source: Seq<Decl>, i: u32, t: Term) -> bool {
    match decl_at(source, i) {
        Some(Decl::Def(d)) => match d.body {
            Some(e) => tele(d.binders@, 0, BinderForm::Lam, t) matches Some(b) && check_form(true, e, b),
            None => t is Sort,
        },
        _ => false,
    }
}

/// The strict value of a definition keeps its shape when a local is abstracted.
pub proof fn lemma_def_strict_abstract(source: Seq<Decl>, i: u32, t: Term, x: Unique, k: nat)
    requires
        def_strict(source, i, t),
    ensures
        def_strict(source, i, spec_abstract_at(t, x, k)),
{
    if t is Sort {
        assert(spec_abstract_at(t, x, k) == t);
    } else if let Some(Decl::Def(d)) = decl_at(source, i) {
        if let Some(e) = d.body {
            let b = tele(d.binders@, 0, BinderForm::Lam, t).unwrap();
            lemma_tele_abstract(d.binders@, 0, BinderForm::Lam, t, x, k);
            lemma_abstract_check_form(true, e, b, x, k + d.binders@.len());
        }
    }
}

/// A definition's value keeps its shape when a local is abstracted.
pub proof fn lemma_def_shape_abstract(source: Seq<Decl>, i: u32, t: Term, x: Unique, k: nat)
    requires
        def_shape(source, i, t),
    ensures
        def_shape(source, i, spec_abstract_at(t, x, k)),
{
    if t is Error || t is Sort {
        assert(spec_abstract_at(t, x, k) == t);
    } else if let Some(Decl::Def(d)) = decl_at(source, i) {
        if let Some(e) = d.body {
            let b = tele(d.binders@, 0, BinderForm::Lam, t).unwrap();
            lemma_tele_abstract(d.binders@, 0, BinderForm::Lam, t, x, k);
            lemma_abstract_check_shape(e, b, x, k + d.binders@.len());
        }
    }
}

/// Every constructor belongs to an inductive.
pub open spec fn parents_known(items: Seq<ItemData>) -> bool {
    forall|k: int| 0 <= k < items.len() && (#[trigger] items[k]).kind == ItemKind::Constructor ==> items[k].parent is Some
}

impl<'a> ElabCtx<'a> {
    /// Elaborates binders in order, each in scope of those before it.
    pub fn elaborate_binders(&mut self, table: &mut SymbolTable, binders: &Vec<Binder>) -> (r: Option<Vec<FreeBinder>>)
        requires
            old(table).wf(),
            ready(*old(self), old(table)@),
        ensures
            final(table).wf(),
            elab_frame(*old(self), old(table)@, *final(self), final(table)@),
            r matches Some(v) ==> v@.len() == binders@.len() && forall|k: int|
                0 <= k < v@.len() ==> (#[trigger] v@[k]).info == spec_binder_info(binders@[k].info)
                    && binder_ty_shape(binders@[k], v@[k].ty),
            r is None ==> !has_room(final(table)@) || final(self).gen_.next_id() == u32::MAX,
    {
        let mut out: Vec<FreeBinder> = Vec::new();
        let mut i: usize = 0;
        proof {
            lemma_frame_refl(*self, table@);
        }
        while i < binders.len()
            invariant
                i <= binders@.len(),
                table.wf(),
                elab_frame(*old(self), old(table)@, *self, table@),
                out@.len() == i,
                forall|k: int| 0 <= k < i ==> (#[trigger] out@[k]).info == spec_binder_info(binders@[k].info)
                    && binder_ty_shape(binders@[k], out@[k].ty),
            decreases binders.len() - i,
        {
            let ghost s0 = *self;
            let ghost t0 = table@;
            match self.elaborate_binder(table, &binders[i]) {
                Some(b) => out.push(b),
                None => {
                    proof {
                        lemma_frame_trans(*old(self), old(table)@, s0, t0, *self, table@);
                    }
                    return None;
                },
            }
            proof {
                lemma_frame_trans(*old(self), old(table)@, s0, t0, *self, table@);
            }
            i = i + 1;
        }
        Some(out)
    }

    /// `ty` with `binders` in scope, closed over them as function types.
    pub fn with_pi_binders(&mut self, table: &mut SymbolTable, binders: &Vec<Binder>, ty: &Type) -> (r: Term)
        requires
            old(table).wf(),
            ready(*old(self), old(table)@),
        ensures
            final(table).wf(),
            elab_frame(*old(self), old(table)@, *final(self), final(table)@),
            r is Error || (tele(binders@, 0, BinderForm::Pi, r) matches Some(b) && lowered_shape(*ty, b)),
            quiet(*old(self), *final(self), final(table)@) ==> pi_strict(binders@, *ty, r),
    {
        let ghost t0 = table@;
        let bs = match self.elaborate_binders(table, binders) {
            Some(bs) => bs,
            None => return self.poison().1,
        };
        let ghost s1 = *self;
        let ghost t1 = table@;
        let saved = self.lctx.copy();
        let body = self.lower_type(table, ty);
        let ghost s2 = *self;
        let r = close_binders(bs.as_slice(), body, BinderForm::Pi);
        self.lctx = saved;
        let ghost s3 = *self;
        if bs.len() > 0 && is_poisoned(&r) {
            let d = self.mk_error(ty.range(), "type nested too deeply");
            let _ = self.error(d);
            proof {
                assert(self.diagnostics@.subrange(0, s3.diagnostics@.len() as int) =~= s3.diagnostics@);
            }
        }
        proof {
            if quiet(*old(self), *self, table@) {
                let q = |t: Term| lowered_form(true, *ty, t);
                assert forall|t: Term, y: Unique, d: nat| q(t) implies #[trigger] q(spec_abstract_at(t, y, d)) by {
                    lemma_abstract_keeps_form(true, *ty, t, y, d);
                }
                assert(quiet(s1, s2, table@));
                assert(bs@.take(bs@.len() as int) =~= bs@);
                lemma_close_tele(binders@, bs@, binders@.len(), BinderForm::Pi, body, q);
                if bs@.len() > 0 {
                    if spec_close(bs@, body, BinderForm::Pi) is Some {
                        lemma_close_wraps(bs@, body, BinderForm::Pi);
                    }
                }
            }
        }
        proof {
            let p = |t: Term| lowered_shape(*ty, t);
            assert forall|t: Term, y: Unique, d: nat| p(t) implies #[trigger] p(spec_abstract_at(t, y, d)) by {
                lemma_abstract_keeps_shape(*ty, t, y, d);
            }
            assert(bs@.take(bs@.len() as int) =~= bs@);
            lemma_close_tele(binders@, bs@, binders@.len(), BinderForm::Pi, body, p);
            lemma_frame_trans(*old(self), t0, s1, t1, s2, table@);
            assert(elab_steps(*old(self), t0, *self, table@));
            lemma_prefix_refl(self.lctx@);
            lemma_ready_grows(s1, t1, table@);
        }
        r
    }

    /// A hole standing for a type that could not be written down.
    pub fn error_mvar(&mut self) -> (t: Term)
        requires
            old(self).gen_.next_id() + 1 < u32::MAX,
        ensures
            t == Term::MVar(Unique((old(self).gen_.next_id() + 1) as u32)),
            final(self).gen_.next_id() == old(self).gen_.next_id() + 2,
            final(self).mctx.metas() == old(self).mctx.metas().push(
                (
                    Unique((old(self).gen_.next_id() + 1) as u32),
                    Term::Sort(crate::term::Level::MVar(Unique(old(self).gen_.next_id()))),
                    old(self).lctx@,
                ),
            ),
            final(self).mctx.solutions() == old(self).mctx.solutions(),
            final(self).lctx == old(self).lctx,
            final(self).env == old(self).env,
            final(self).lang_items == old(self).lang_items,
            final(self).namespace == old(self).namespace,
            final(self).file == old(self).file,
            final(self).fuel == old(self).fuel,
            final(self).current_decl == old(self).current_decl,
            final(self).diagnostics == old(self).diagnostics,
            final(self).autobound == old(self).autobound,
            final(self).frames == old(self).frames,
    {
        let ty = self.placeholder_ty();
        self.fresh_mvar(ty)
    }
}

/// The declaration at position `i` is a `def`.
pub open spec fn is_def(source: Seq<Decl>, i: u32) -> bool {
    decl_at(source, i) matches Some(Decl::Def(_))
}

/// The declaration at position `i` is a `def` without a body.
pub open spec fn is_bodiless_def(source: Seq<Decl>, i: u32) -> bool {
    decl_at(source, i) matches Some(Decl::Def(d)) && d.body is None
}

/// The range of the declaration at position `i`, or the empty range.
pub open spec fn decl_range(source: Seq<Decl>, i: u32) -> TextRange {
    match decl_at(source, i) {
        Some(d) => d.spec_range(),
        None => TextRange { start: 0, end: 0 },
    }
}

/// `d` reports holes of a declaration left unsolved, at `range` of `file`.
pub open spec fn unsolved_report(d: Diagnostic, file: u32, range: TextRange) -> bool {
    diag_head(d, file, range, "could not infer all implicit values in this declaration"@)
}

impl<'a> ElabCtx<'a> {
    /// The declaration at position `i` of `source`.
    fn decl_at(source: &Vec<Decl>, i: u32) -> (r: Option<&Decl>)
        ensures
            match decl_at(source@, i) {
                Some(d) => r == Some(&d),
                None => r is None,
            },
    {
        if (i as usize) < source.len() {
            Some(&source[i as usize])
        } else {
            None
        }
    }

    /// The type of the declaration being elaborated: its return type under
    /// its binders, with solved holes filled in and auto-bound names made
    /// implicit parameters; holes still unsolved are reported.
    pub fn elaborate_signature(&mut self, table: &mut SymbolTable, source: &Vec<Decl>) -> (r: Term)
        requires
            old(table).wf(),
            ready(*old(self), old(table)@),
            old(self).autobound@.len() == 0,
            (old(self).current_decl.0 as int) < old(self).env.items@.len(),
            parents_known(old(self).env.items@),
        ensures
            final(table).wf(),
            elab_steps(*old(self), old(table)@, *final(self), final(table)@),
            ready(*final(self), final(table)@),
            final(self).autobound@.len() == 0,
            ({
                let data = old(self).env.items@[old(self).current_decl.0 as int];
                &&& !has_return_type(old(self).env.items@, source@, data) ==> r is Error && final(self).diagnostics@
                    == old(self).diagnostics@ && final(self).gen_.next_id() == old(self).gen_.next_id()
                &&& (!has_error(r) && spec_collect_unsolved(final(self).mctx.solutions(), r, Seq::empty()).len()
                    > 0) ==> final(self).diagnostics@.len() > 0 && unsolved_report(
                    final(self).diagnostics@.last(),
                    old(self).file,
                    decl_range(source@, data.ast_index),
                )
                &&& r is Error || exists|n: nat| #[trigger] implicit_tele(n, BinderForm::Pi, r) matches Some(inner)
                    && sig_shape(old(self).env.items@, source@, data, inner)
                &&& quiet(*old(self), *final(self), final(table)@) ==> exists|n: nat| #[trigger] implicit_tele(
                    n,
                    BinderForm::Pi,
                    r,
                ) matches Some(inner) && sig_strict(old(self).env.items@, source@, data, inner)
            }),
    {
        let ghost t0 = table@;
        let data = match self.env.item(self.current_decl) {
            Some(d) => *d,
            None => return self.error_term(),
        };
        let node = Self::decl_at(source, data.ast_index);
        let range = match node {
            Some(d) => d.range(),
            None => TextRange::empty(),
        };
        proof {
            lemma_frame_refl(*self, t0);
        }
        let ty = match data.kind {
            ItemKind::Def => match node {
                Some(Decl::Def(d)) => match &d.return_type {
                    Some(rt) => self.with_pi_binders(table, &d.binders, rt),
                    None => self.error_term(),
                },
                _ => self.error_term(),
            },
            ItemKind::Inductive => match node {
                Some(Decl::Inductive(d)) => match &d.return_type {
                    Some(rt) => self.lower_type(table, rt),
                    None => self.error_term(),
                },
                _ => self.error_term(),
            },
            ItemKind::Constructor => {
                proof {
                    assert(old(self).env.items@[old(self).current_decl.0 as int].kind == ItemKind::Constructor);
                }
                let parent = match data.parent {
                    Some(p) => p,
                    None => return self.error_term(),
                };
                let parent_node = match self.env.item(parent) {
                    Some(pd) => Self::decl_at(source, pd.ast_index),
                    None => None,
                };
                let ctor = match parent_node {
                    Some(Decl::Inductive(ind)) => if (data.ast_index as usize) < ind.constructors.len() {
                        Some(&ind.constructors[data.ast_index as usize])
                    } else {
                        None
                    },
                    _ => None,
                };
                match ctor {
                    Some(c) => match &c.return_type {
                        Some(rt) => self.with_pi_binders(table, &c.binders, rt),
                        None => self.error_term(),
                    },
                    None => self.error_term(),
                }
            },
        };
        let ghost s1 = *self;
        proof {
            assert(sig_shape(old(self).env.items@, source@, data, ty));
            assert forall|m: Unique| !has_mvar(ty, m) by {
                lemma_sig_shape_no_mvar(old(self).env.items@, source@, data, ty, m);
            }
            crate::zonk::lemma_zonk_no_mvars(self.mctx.solutions(), ty, Seq::empty());
        }
        let zonked = self.zonk(&ty);
        let n_auto = self.autobound.len();
        let closed = self.abstract_autobound_pi(zonked);
        let ghost s4 = *self;
        if n_auto > 0 && is_poisoned(&closed) {
            let d = self.mk_error(range, "declaration nested too deeply");
            let _ = self.error(d);
            proof {
                assert(self.diagnostics@.subrange(0, s4.diagnostics@.len() as int) =~= s4.diagnostics@);
            }
        }
        proof {
            let items = old(self).env.items@;
            if quiet(*old(self), *self, table@) {
                assert(quiet(*old(self), s1, table@));
                assert(sig_strict(items, source@, data, ty));
                let q = |t: Term| sig_strict(items, source@, data, t);
                assert forall|t: Term, y: Unique, k: nat| q(t) implies #[trigger] q(spec_abstract_at(t, y, k)) by {
                    lemma_sig_strict_abstract(items, source@, data, t, y, k);
                }
                assert(s1.autobound@.take(s1.autobound@.len() as int) =~= s1.autobound@);
                assert(implicit_tele(0, BinderForm::Pi, zonked) == Some(zonked));
                lemma_close_implicit(s1.autobound@, s1.autobound@.len(), BinderForm::Pi, zonked, q);
                if s1.autobound@.len() > 0 && spec_close(s1.autobound@, zonked, BinderForm::Pi) is Some {
                    lemma_close_wraps(s1.autobound@, zonked, BinderForm::Pi);
                }
                assert(implicit_tele(s1.autobound@.len(), BinderForm::Pi, closed) is Some);
            }
        }
        proof {
            let items = old(self).env.items@;
            let p = |t: Term| sig_shape(items, source@, data, t);
            assert forall|t: Term, y: Unique, k: nat| p(t) implies #[trigger] p(spec_abstract_at(t, y, k)) by {
                lemma_sig_shape_abstract(items, source@, data, t, y, k);
            }
            assert(s1.autobound@.take(s1.autobound@.len() as int) =~= s1.autobound@);
            assert(implicit_tele(0, BinderForm::Pi, zonked) == Some(zonked));
            lemma_close_implicit(s1.autobound@, s1.autobound@.len(), BinderForm::Pi, zonked, p);
            if !(closed is Error) {
                assert(implicit_tele(s1.autobound@.len(), BinderForm::Pi, closed) is Some);
            }
        }
        let ghost s2 = *self;
        self.report_unsolved_mvars(&closed, range);
        proof {
            if !has_return_type(old(self).env.items@, source@, data) {
                assert(ty is Error);
                assert(s1.autobound@.len() == 0);
                assert(zonked == ty);
                assert(closed == ty);
            }
            lemma_prefix_refl(s2.mctx.metas());
            crate::unify::lemma_keeps_refl(s2.mctx.solutions());
            if self.diagnostics@ != s2.diagnostics@ {
                assert(self.diagnostics@.subrange(0, s2.diagnostics@.len() as int) =~= s2.diagnostics@);
            } else {
                lemma_prefix_refl(s2.diagnostics@);
            }
            lemma_prefix_trans(old(self).diagnostics@, s1.diagnostics@, self.diagnostics@);
            lemma_prefix_trans(old(self).mctx.metas(), s1.mctx.metas(), self.mctx.metas());
            assert(self.autobound@ =~= Seq::<FreeBinder>::empty());
            assert(old(self).autobound@.is_prefix_of(self.autobound@));
        }
        closed
    }
}

/// Reports that fresh names ran out while elaborating declaration `item`.
fn report_exhausted_names<'a>(cx: &mut ElabCtx<'a>, source: &Vec<Decl>, item: ItemId)
    ensures
        final(cx).diagnostics@.len() >= old(cx).diagnostics@.len(),
        old(cx).gen_.next_id() == u32::MAX ==> final(cx).diagnostics@.len() > 0,
        old(cx).gen_.next_id() < u32::MAX ==> final(cx).diagnostics == old(cx).diagnostics,
        final(cx).gen_ == old(cx).gen_,
{
    if !cx.gen_.has_next() {
        let range = match cx.env.item(item) {
            Some(d) => match ElabCtx::decl_at(source, d.ast_index) {
                Some(x) => x.range(),
                None => TextRange::empty(),
            },
            None => TextRange::empty(),
        };
        let d = cx.mk_error(range, "ran out of fresh names");
        let _ = cx.error(d);
    }
}

/// The type of declaration `item` of `source`, and what elaborating it reported.
///
/// The type is the poisoned term where the declaration has no return type;
/// otherwise it has the shape of its return type under its binders, under
/// implicit binders for its auto-bound names. Where nothing was reported and
/// the symbol table still has room, no function type in it is poisoned as a
/// whole: the poisoned term stands only where the source has a gap or a name
/// that did not resolve.
pub fn signature(
    env: &Env,
    lang_items: &LanguageItems,
    namespace: &Namespace,
    table: &mut SymbolTable,
    item: ItemId,
    source: &Vec<Decl>,
) -> (r: (Signature, Vec<Diagnostic>))
    requires
        old(table).wf(),
        lang_items.wf(),
        names_below(*namespace, old(table)@.len()),
        (item.0 as int) < env.items@.len(),
        parents_known(env.items@),
    ensures
        final(table).wf(),
        crate::import::table_grows(old(table)@, final(table)@),
        !has_return_type(env.items@, source@, env.items@[item.0 as int]) ==> r.0.ty is Error && r.1@.len() == 0,
        r.0.ty is Error || exists|n: nat| #[trigger] implicit_tele(n, BinderForm::Pi, r.0.ty) matches Some(inner)
            && sig_shape(env.items@, source@, env.items@[item.0 as int], inner),
        r.1@.len() == 0 && has_room(final(table)@) ==> exists|n: nat| #[trigger] implicit_tele(
            n,
            BinderForm::Pi,
            r.0.ty,
        ) matches Some(inner) && sig_strict(env.items@, source@, env.items@[item.0 as int], inner),
{
    let file = env.items[item.0 as usize].file;
    let mut cx = ElabCtx::new(env, lang_items, namespace, item, file);
    let ghost c0 = cx;
    let ty = cx.elaborate_signature(table, source);
    report_exhausted_names(&mut cx, source, item);
    proof {
        assert(quiet(c0, cx, table@) || cx.diagnostics@.len() > 0 || !has_room(table@));
    }
    (Signature { ty }, cx.diagnostics)
}

impl<'a> ElabCtx<'a> {
    /// The value of a `def` with body `expr`: its binders in scope, the body
    /// checked against the return type, closed over the binders as functions.
    fn def_value(&mut self, table: &mut SymbolTable, d: &crate::ast::DefDecl, expr: &crate::ast::Expr, name: crate::ids::Symbol) -> (r: Term)
        requires
            old(table).wf(),
            ready(*old(self), old(table)@),
        ensures
            final(table).wf(),
            elab_frame(*old(self), old(table)@, *final(self), final(table)@),
            r is Error || (tele(d.binders@, 0, BinderForm::Lam, r) matches Some(b) && check_shape(*expr, b)),
            quiet(*old(self), *final(self), final(table)@) ==> (tele(d.binders@, 0, BinderForm::Lam, r) matches Some(b)
                && check_form(true, *expr, b)),
    {
        let ghost t0 = table@;
        let annotation = match &d.return_type {
            Some(t) => t.range(),
            None => expr.range(),
        };
        let bs = match self.elaborate_binders(table, &d.binders) {
            Some(bs) => bs,
            None => return self.error_term(),
        };
        let ghost s1 = *self;
        let ghost t1 = table@;
        let saved = self.lctx.copy();
        let body_type = match &d.return_type {
            Some(t) => self.lower_type(table, t),
            None => if self.gen_.next_id_below(u32::MAX - 1) {
                let ghost sa = *self;
                let m = self.error_mvar();
                proof {
                    lemma_frame_refl(sa, table@);
                    crate::lower::lemma_prefix_push(sa.mctx.metas(), self.mctx.metas().last());
                    assert(elab_frame(sa, table@, *self, table@));
                    lemma_frame_trans(s1, t1, sa, table@, *self, table@);
                }
                m
            } else {
                proof {
                    lemma_frame_refl(*self, t1);
                }
                self.error_term()
            },
        };
        let ghost s2 = *self;
        let ghost t2 = table@;
        let expected = Expected::new(body_type, ExpectedReason::ReturnType { annotation });
        let frame = Frame::DefBody { name };
        self.enter_frame(frame);
        let ghost s3 = *self;
        let v = self.check(table, expr, &expected);
        let ghost s4 = *self;
        self.leave_frame(frame);
        let r = close_binders(bs.as_slice(), v, BinderForm::Lam);
        self.lctx = saved;
        let ghost s5 = *self;
        if bs.len() > 0 && is_poisoned(&r) {
            let d = self.mk_error(expr.range(), "definition nested too deeply");
            let _ = self.error(d);
            proof {
                assert(self.diagnostics@.subrange(0, s5.diagnostics@.len() as int) =~= s5.diagnostics@);
            }
        }
        proof {
            if quiet(*old(self), *self, table@) {
                assert(quiet(s3, s4, table@));
                let q = |t: Term| check_form(true, *expr, t);
                assert forall|t: Term, y: Unique, k: nat| q(t) implies #[trigger] q(spec_abstract_at(t, y, k)) by {
                    lemma_abstract_check_form(true, *expr, t, y, k);
                }
                assert(bs@.take(bs@.len() as int) =~= bs@);
                lemma_close_tele(d.binders@, bs@, d.binders@.len(), BinderForm::Lam, v, q);
                if bs@.len() > 0 && spec_close(bs@, v, BinderForm::Lam) is Some {
                    lemma_close_wraps(bs@, v, BinderForm::Lam);
                }
            }
        }
        proof {
            let p = |t: Term| check_shape(*expr, t);
            assert forall|t: Term, y: Unique, k: nat| p(t) implies #[trigger] p(spec_abstract_at(t, y, k)) by {
                lemma_abstract_check_shape(*expr, t, y, k);
            }
            assert(bs@.take(bs@.len() as int) =~= bs@);
            lemma_close_tele(d.binders@, bs@, d.binders@.len(), BinderForm::Lam, v, p);
            lemma_frame_trans(*old(self), t0, s1, t1, s2, t2);
            assert(self.frames@ =~= s2.frames@);
            assert(elab_steps(s2, t2, *self, table@));
            assert(elab_steps(*old(self), t0, s2, t2));
            crate::lower::lemma_elab_steps_trans(*old(self), t0, s2, t2, *self, table@);
            lemma_prefix_refl(self.lctx@);
            lemma_prefix_trans(old(self).lctx@, s1.lctx@, self.lctx@);
            lemma_ready_grows(s1, t1, table@);
        }
        r
    }

    /// The value of the `def` being elaborated, closed over its auto-bound
    /// names; `None` where the declaration is not a `def`.
    pub fn elaborate_def_body(&mut self, table: &mut SymbolTable, source: &Vec<Decl>) -> (r: Option<Term>)
        requires
            old(table).wf(),
            ready(*old(self), old(table)@),
            old(self).autobound@.len() == 0,
            (old(self).current_decl.0 as int) < old(self).env.items@.len(),
        ensures
            final(table).wf(),
            elab_steps(*old(self), old(table)@, *final(self), final(table)@),
            ready(*final(self), final(table)@),
            final(self).autobound@.len() == 0,
            ({
                let data = old(self).env.items@[old(self).current_decl.0 as int];
                &&& (r is Some <==> is_def(source@, data.ast_index))
                &&& r matches Some(v) ==> v is Error || exists|n: nat| #[trigger] implicit_tele(n, BinderForm::Lam, v)
                    matches Some(inner) && def_shape(source@, data.ast_index, inner)
                &&& quiet(*old(self), *final(self), final(table)@) ==> (r matches Some(v) ==> exists|n: nat|
                    #[trigger] implicit_tele(n, BinderForm::Lam, v) matches Some(inner) && def_strict(
                    source@,
                    data.ast_index,
                    inner,
                ))
                &&& is_bodiless_def(source@, data.ast_index) ==> {
                    &&& final(self).diagnostics@ == old(self).diagnostics@
                    &&& (old(self).gen_.next_id() < u32::MAX ==> r == Some(
                        Term::Sort(crate::term::Level::MVar(Unique(old(self).gen_.next_id()))),
                    ))
                }
            }),
    {
        let ghost t0 = table@;
        let data = match self.env.item(self.current_decl) {
            Some(d) => *d,
            None => return None,
        };
        proof {
            lemma_frame_refl(*self, t0);
        }
        match Self::decl_at(source, data.ast_index) {
            Some(Decl::Def(d)) => {
                let value = match &d.body {
                    Some(expr) => self.def_value(table, d, expr, data.name),
                    None => if self.gen_.has_next() {
                        self.placeholder_ty()
                    } else {
                        self.error_term()
                    },
                };
                let ghost s1 = *self;
                let n_auto = self.autobound.len();
                let r = self.abstract_autobound_lam(value);
                let ghost s2 = *self;
                if n_auto > 0 && is_poisoned(&r) {
                    let dg = self.mk_error(d.range, "definition nested too deeply");
                    let _ = self.error(dg);
                    proof {
                        assert(self.diagnostics@.subrange(0, s2.diagnostics@.len() as int) =~= s2.diagnostics@);
                    }
                }
                proof {
                    if quiet(*old(self), *self, table@) {
                        assert(quiet(*old(self), s1, table@));
                        assert(def_strict(source@, data.ast_index, value));
                        let q = |t: Term| def_strict(source@, data.ast_index, t);
                        assert forall|t: Term, y: Unique, k: nat| q(t) implies #[trigger] q(spec_abstract_at(t, y, k)) by {
                            lemma_def_strict_abstract(source@, data.ast_index, t, y, k);
                        }
                        assert(s1.autobound@.take(s1.autobound@.len() as int) =~= s1.autobound@);
                        assert(implicit_tele(0, BinderForm::Lam, value) == Some(value));
                        lemma_close_implicit(s1.autobound@, s1.autobound@.len(), BinderForm::Lam, value, q);
                        if s1.autobound@.len() > 0 && spec_close(s1.autobound@, value, BinderForm::Lam) is Some {
                            lemma_close_wraps(s1.autobound@, value, BinderForm::Lam);
                        }
                        assert(implicit_tele(s1.autobound@.len(), BinderForm::Lam, r) is Some);
                    }
                }
                proof {
                    let p = |t: Term| def_shape(source@, data.ast_index, t);
                    assert forall|t: Term, y: Unique, k: nat| p(t) implies #[trigger] p(spec_abstract_at(t, y, k)) by {
                        lemma_def_shape_abstract(source@, data.ast_index, t, y, k);
                    }
                    assert(p(value));
                    assert(s1.autobound@.take(s1.autobound@.len() as int) =~= s1.autobound@);
                    assert(implicit_tele(0, BinderForm::Lam, value) == Some(value));
                    lemma_close_implicit(s1.autobound@, s1.autobound@.len(), BinderForm::Lam, value, p);
                    if !(r is Error) {
                        assert(implicit_tele(s1.autobound@.len(), BinderForm::Lam, r) is Some);
                    }
                    if d.body is None {
                        assert(s1.autobound@.len() == 0);
                        assert(s1.autobound@ =~= Seq::<FreeBinder>::empty());
                    }
                    assert(self.autobound@ =~= Seq::<FreeBinder>::empty());
                    assert(old(self).autobound@.is_prefix_of(self.autobound@));
                }
                Some(r)
            },
            _ => None,
        }
    }
}

/// The value of definition `item` of `source`, and what elaborating it
/// reported; `None` where the item is not a `def`.
///
/// The value has the shape of the body checked against the return type,
/// under functions for the binders and for the auto-bound names. Where
/// nothing was reported and the symbol table still has room, it has that
/// shape strictly: the poisoned term stands only where the source has a gap.
pub fn def_body(
    env: &Env,
    lang_items: &LanguageItems,
    namespace: &Namespace,
    table: &mut SymbolTable,
    item: ItemId,
    source: &Vec<Decl>,
) -> (r: (Option<DefBody>, Vec<Diagnostic>))
    requires
        old(table).wf(),
        lang_items.wf(),
        names_below(*namespace, old(table)@.len()),
        (item.0 as int) < env.items@.len(),
    ensures
        final(table).wf(),
        crate::import::table_grows(old(table)@, final(table)@),
        r.0 is Some <==> is_def(source@, env.items@[item.0 as int].ast_index),
        r.0 matches Some(b) ==> b.value is Error || exists|n: nat| #[trigger] implicit_tele(n, BinderForm::Lam, b.value)
            matches Some(inner) && def_shape(source@, env.items@[item.0 as int].ast_index, inner),
        r.1@.len() == 0 && has_room(final(table)@) ==> (r.0 matches Some(b) ==> exists|n: nat| #[trigger] implicit_tele(
            n,
            BinderForm::Lam,
            b.value,
        ) matches Some(inner) && def_strict(source@, env.items@[item.0 as int].ast_index, inner)),
{
    let file = env.items[item.0 as usize].file;
    let mut cx = ElabCtx::new(env, lang_items, namespace, item, file);
    let ghost c0 = cx;
    let value = cx.elaborate_def_body(table, source);
    report_exhausted_names(&mut cx, source, item);
    proof {
        assert(quiet(c0, cx, table@) || cx.diagnostics@.len() > 0 || !has_room(table@));
    }
    let body = match value {
        Some(v) => Some(DefBody { value: v }),
        None => None,
    };
    (body, cx.diagnostics)
}

/// The constructors of inductive `item` among the first `n` items, in order.
pub open spec fn ctors_upto(items: Seq<ItemData>, item: ItemId, n: nat) -> Seq<ItemId>
    decreases n,
{
    if n == 0 {
        Seq::empty()
    } else {
        let k = (n - 1) as nat;
        let rest = ctors_upto(items, item, k);
        if items[k as int].parent == Some(item) && items[k as int].kind == ItemKind::Constructor {
            rest.push(ItemId(k as u32))
        } else {
            rest
        }
    }
}

/// The number of parameters the declaration at position `i` has, if it is an inductive.
pub open spec fn param_count(source: Seq<Decl>, i: u32) -> nat {
    match decl_at(source, i) {
        Some(Decl::Inductive(d)) => d.params@.len(),
        _ => 0,
    }
}

/// The elaborated type of a parameter: its written type lowered, or a hole
/// where it has none.
pub open spec fn param_shape(b: Binder, t: Term) -> bool {
    match b.ty {
        Some(ty) => lowered_shape(*ty, t),
        None => t is MVar || t is Error,
    }
}

/// The parameters and constructors of inductive `item` of `source`, and what
/// elaborating the parameters reported.
pub fn inductive_data(
    env: &Env,
    lang_items: &LanguageItems,
    namespace: &Namespace,
    table: &mut SymbolTable,
    item: ItemId,
    source: &Vec<Decl>,
) -> (r: (InductiveData, Vec<Diagnostic>))
    requires
        old(table).wf(),
        lang_items.wf(),
        names_below(*namespace, old(table)@.len()),
        (item.0 as int) < env.items@.len(),
        env.items@.len() <= u32::MAX,
    ensures
        final(table).wf(),
        crate::import::table_grows(old(table)@, final(table)@),
        r.0.ctors@ == ctors_upto(env.items@, item, env.items@.len()),
        r.0.num_params == r.0.binders@.len(),
        r.0.binders@.len() == param_count(source@, env.items@[item.0 as int].ast_index),
        decl_at(source@, env.items@[item.0 as int].ast_index) matches Some(Decl::Inductive(d)) ==> forall|k: int|
            0 <= k < r.0.binders@.len() ==> param_shape(d.params@[k], #[trigger] r.0.binders@[k]),
{
    let data = env.items[item.0 as usize];
    let mut cx = ElabCtx::new(env, lang_items, namespace, item, data.file);
    let mut ctors: Vec<ItemId> = Vec::new();
    let mut k: usize = 0;
    while k < env.items.len()
        invariant
            k <= env.items@.len(),
            env.items@.len() <= u32::MAX,
            ctors@ == ctors_upto(env.items@, item, k as nat),
        decreases env.items.len() - k,
    {
        let c = &env.items[k];
        if c.parent == Some(item) && c.kind == ItemKind::Constructor {
            ctors.push(ItemId(k as u32));
        }
        k = k + 1;
    }
    let mut binders: Vec<Term> = Vec::new();
    let mut num_params: usize = 0;
    proof {
        lemma_frame_refl(cx, table@);
    }
    match ElabCtx::decl_at(source, data.ast_index) {
        Some(Decl::Inductive(decl)) => {
            let mut i: usize = 0;
            while i < decl.params.len()
                invariant
                    i <= decl.params@.len(),
                    table.wf(),
                    crate::import::table_grows(old(table)@, table@),
                    ready(cx, table@),
                    binders@.len() == i,
                    num_params == i,
                    forall|k: int| 0 <= k < i ==> param_shape(decl.params@[k], #[trigger] binders@[k]),
                decreases decl.params.len() - i,
            {
                let ghost t1 = table@;
                let ty = match &decl.params[i].ty {
                    Some(t) => cx.lower_type(table, t),
                    None => if cx.gen_.next_id_below(u32::MAX - 1) {
                        let ghost sa = cx;
                        let m = cx.error_mvar();
                        proof {
                            lemma_frame_refl(sa, table@);
                            crate::lower::lemma_prefix_push(sa.mctx.metas(), cx.mctx.metas().last());
                            assert(elab_frame(sa, table@, cx, table@));
                        }
                        m
                    } else {
                        cx.error_term()
                    },
                };
                proof {
                    assert(crate::import::table_grows(t1, table@));
                    assert forall|j: int| 0 <= j < old(table)@.len() implies #[trigger] table@[j] == old(table)@[j] by {
                        assert(table@[j] == t1[j]);
                    }
                }
                let ghost before = binders@;
                binders.push(ty);
                proof {
                    assert forall|k: int| 0 <= k < i + 1 implies param_shape(decl.params@[k], #[trigger] binders@[k]) by {
                        if k < i {
                            assert(binders@[k] == before[k]);
                        }
                    }
                }
                num_params = num_params + 1;
                i = i + 1;
            }
        },
        _ => {},
    }
    (InductiveData { num_params, binders, ctors }, cx.diagnostics)
}

/// Everything elaborated for one declaration.
#[derive(Debug)]
pub struct ElaboratedItem {
    pub id: ItemId,
    pub signature: Signature,
    pub def_body: Option<DefBody>,
    pub inductive_data: Option<InductiveData>,
    /// What elaborating it reported, in order.
    pub diagnostics: Vec<Diagnostic>,
}

/// What `elaborate_decl` may be asked about: a known item of a table of
/// items that fit `u32`, whose constructors all belong to an inductive.
pub open spec fn decl_ok(env: Env, item: ItemId) -> bool {
    &&& (item.0 as int) < env.items@.len()
    &&& env.items@.len() <= u32::MAX
    &&& parents_known(env.items@)
}

/// Elaborates declaration `item` of `source`: its signature, the body of a
/// `def`, the parameters and constructors of an inductive.
pub fn elaborate_decl(
    env: &Env,
    lang_items: &LanguageItems,
    namespace: &Namespace,
    table: &mut SymbolTable,
    item: ItemId,
    source: &Vec<Decl>,
) -> (r: ElaboratedItem)
    requires
        old(table).wf(),
        lang_items.wf(),
        names_below(*namespace, old(table)@.len()),
        decl_ok(*env, item),
    ensures
        final(table).wf(),
        crate::import::table_grows(old(table)@, final(table)@),
        r.id == item,
        r.def_body is Some ==> env.items@[item.0 as int].kind == ItemKind::Def,
        env.items@[item.0 as int].kind == ItemKind::Def ==> (r.def_body is Some <==> is_def(
            source@,
            env.items@[item.0 as int].ast_index,
        )),
        r.inductive_data is Some <==> env.items@[item.0 as int].kind == ItemKind::Inductive,
        ({
            let data = env.items@[item.0 as int];
            &&& !has_return_type(env.items@, source@, data) ==> r.signature.ty is Error
            &&& r.signature.ty is Error || exists|n: nat| #[trigger] implicit_tele(n, BinderForm::Pi, r.signature.ty)
                matches Some(inner) && sig_shape(env.items@, source@, data, inner)
            &&& r.def_body matches Some(b) ==> b.value is Error || exists|n: nat| #[trigger] implicit_tele(
                n,
                BinderForm::Lam,
                b.value,
            ) matches Some(inner) && def_shape(source@, data.ast_index, inner)
            &&& r.inductive_data matches Some(ind) ==> {
                &&& ind.ctors@ == ctors_upto(env.items@, item, env.items@.len())
                &&& ind.num_params == ind.binders@.len()
                &&& ind.binders@.len() == param_count(source@, data.ast_index)
            }
            &&& r.diagnostics@.len() == 0 && has_room(final(table)@) ==> {
                &&& exists|n: nat| #[trigger] implicit_tele(n, BinderForm::Pi, r.signature.ty) matches Some(inner)
                    && sig_strict(env.items@, source@, data, inner)
                &&& r.def_body matches Some(b) ==> exists|n: nat| #[trigger] implicit_tele(n, BinderForm::Lam, b.value)
                    matches Some(inner) && def_strict(source@, data.ast_index, inner)
            }
        }),
{
    let ghost g0 = table@;
    let (signature, mut diagnostics) = signature(env, lang_items, namespace, table, item, source);
    let kind = env.items[item.0 as usize].kind;
    let def_body = if kind == ItemKind::Def {
        proof {
            assert(names_below(*namespace, table@.len())) by {
                assert forall|p: Seq<crate::ids::Symbol>| #[trigger] crate::namespace::spec_walk(*namespace, p) is Some implies crate::namespace::level_below(
                    crate::namespace::spec_walk(*namespace, p).unwrap(),
                    table@.len(),
                ) by {
                    assert(crate::namespace::level_below(crate::namespace::spec_walk(*namespace, p).unwrap(), g0.len()));
                }
            }
        }
        let ghost g1 = table@;
        let (b, mut ds) = def_body(env, lang_items, namespace, table, item, source);
        diagnostics.append(&mut ds);
        proof {
            assert forall|j: int| 0 <= j < g0.len() implies #[trigger] table@[j] == g0[j] by {
                assert(table@[j] == g1[j]);
            }
        }
        b
    } else {
        None
    };
    let inductive = if kind == ItemKind::Inductive {
        proof {
            assert(names_below(*namespace, table@.len())) by {
                assert forall|p: Seq<crate::ids::Symbol>| #[trigger] crate::namespace::spec_walk(*namespace, p) is Some implies crate::namespace::level_below(
                    crate::namespace::spec_walk(*namespace, p).unwrap(),
                    table@.len(),
                ) by {
                    assert(crate::namespace::level_below(crate::namespace::spec_walk(*namespace, p).unwrap(), g0.len()));
                }
            }
        }
        let ghost g1 = table@;
        let (d, mut ds) = inductive_data(env, lang_items, namespace, table, item, source);
        diagnostics.append(&mut ds);
        proof {
            assert forall|j: int| 0 <= j < g0.len() implies #[trigger] table@[j] == g0[j] by {
                assert(table@[j] == g1[j]);
            }
        }
        Some(d)
    } else {
        None
    };
    ElaboratedItem { id: item, signature, def_body, inductive_data: inductive, diagnostics }
}

/// Every declaration of the file is in a table of items that fit `u32`, whose
/// constructors all belong to an inductive.
pub open spec fn file_ok(env: Env, namespace: Namespace) -> bool {
    &&& env.items@.len() <= u32::MAX
    &&& parents_known(env.items@)
    &&& forall|k: int| 0 <= k < namespace.decls@.len() ==> (#[trigger] namespace.decls@[k]).1.0 < env.items@.len()
}

/// Elaborates every declaration of the file's namespace, in order.
pub fn elaborate_file(
    env: &Env,
    lang_items: &LanguageItems,
    namespace: &Namespace,
    table: &mut SymbolTable,
    source: &Vec<Decl>,
) -> (r: Vec<ElaboratedItem>)
    requires
        old(table).wf(),
        lang_items.wf(),
        names_below(*namespace, old(table)@.len()),
        file_ok(*env, *namespace),
    ensures
        final(table).wf(),
        crate::import::table_grows(old(table)@, final(table)@),
        r@.len() == namespace.decls@.len(),
        forall|k: int| 0 <= k < r@.len() ==> (#[trigger] r@[k]).id == namespace.decls@[k].1,
{
    let mut items: Vec<ElaboratedItem> = Vec::new();
    let mut k: usize = 0;
    while k < namespace.decls.len()
        invariant
            k <= namespace.decls@.len(),
            table.wf(),
            crate::import::table_grows(old(table)@, table@),
            names_below(*namespace, old(table)@.len()),
            file_ok(*env, *namespace),
            lang_items.wf(),
            items@.len() == k,
            forall|j: int| 0 <= j < k ==> (#[trigger] items@[j]).id == namespace.decls@[j].1,
        decreases namespace.decls.len() - k,
    {
        let item = namespace.decls[k].1;
        proof {
            assert forall|p: Seq<crate::ids::Symbol>| #[trigger] crate::namespace::spec_walk(*namespace, p) is Some implies crate::namespace::level_below(
                crate::namespace::spec_walk(*namespace, p).unwrap(),
                table@.len(),
            ) by {
                assert(crate::namespace::level_below(crate::namespace::spec_walk(*namespace, p).unwrap(), old(table)@.len()));
            }
        }
        let ghost g1 = table@;
        let e = elaborate_decl(env, lang_items, namespace, table, item, source);
        proof {
            assert forall|j: int| 0 <= j < old(table)@.len() implies #[trigger] table@[j] == old(table)@[j] by {
                assert(table@[j] == g1[j]);
            }
        }
        items.push(e);
        k = k + 1;
    }
    items
}

/// What the items reported, item after item, each in the order it reported.
pub open spec fn item_diagnostics(es: Seq<ElaboratedItem>) -> Seq<Diagnostic>
    decreases es.len(),
{
    if es.len() == 0 {
        Seq::empty()
    } else {
        item_diagnostics(es.drop_last()) + es.last().diagnostics@
    }
}

/// Diagnostics that say the same things keep the same ones about a file.
pub proof fn lemma_file_diagnostics_views(file: u32, a: Seq<Diagnostic>, b: Seq<Diagnostic>)
    requires
        a.map_values(|d: Diagnostic| diag_view(d)) == b.map_values(|d: Diagnostic| diag_view(d)),
    ensures
        spec_file_diagnostics(file, a) == spec_file_diagnostics(file, b),
    decreases a.len(),
{
    assert(a.len() == a.map_values(|d: Diagnostic| diag_view(d)).len());
    if a.len() > 0 {
        let fa = a.map_values(|d: Diagnostic| diag_view(d));
        let fb = b.map_values(|d: Diagnostic| diag_view(d));
        assert(b.len() == fb.len());
        assert forall|j: int| 0 <= j < a.len() - 1 implies diag_view(a.drop_last()[j]) == diag_view(b.drop_last()[j]) by {
            assert(fa[j] == fb[j]);
        }
        assert(a.drop_last().map_values(|d: Diagnostic| diag_view(d)) =~= b.drop_last().map_values(
            |d: Diagnostic| diag_view(d),
        ));
        assert(diag_view(a.last()) == a.map_values(|d: Diagnostic| diag_view(d))[a.len() - 1]);
        assert(diag_view(b.last()) == b.map_values(|d: Diagnostic| diag_view(d))[b.len() - 1]);
        lemma_file_diagnostics_views(file, a.drop_last(), b.drop_last());
    }
}

/// Appends copies of `src` to `out`.
fn append_copies(out: &mut Vec<Diagnostic>, src: &Vec<Diagnostic>)
    ensures
        final(out)@.map_values(|d: Diagnostic| diag_view(d)) == old(out)@.map_values(|d: Diagnostic| diag_view(d))
            + src@.map_values(|d: Diagnostic| diag_view(d)),
{
    let ghost o = out@.map_values(|d: Diagnostic| diag_view(d));
    let mut i: usize = 0;
    while i < src.len()
        invariant
            i <= src@.len(),
            out@.map_values(|d: Diagnostic| diag_view(d)) == o + src@.take(i as int).map_values(
                |d: Diagnostic| diag_view(d),
            ),
        decreases src.len() - i,
    {
        let ghost before = out@;
        out.push(copy_diag(&src[i]));
        proof {
            assert(out@.map_values(|d: Diagnostic| diag_view(d)) =~= before.map_values(|d: Diagnostic| diag_view(d)).push(
                diag_view(src@[i as int]),
            ));
            assert(src@.take(i + 1).map_values(|d: Diagnostic| diag_view(d)) =~= src@.take(i as int).map_values(
                |d: Diagnostic| diag_view(d),
            ).push(diag_view(src@[i as int])));
        }
        i = i + 1;
    }
    proof {
        assert(src@.take(src@.len() as int) =~= src@);
    }
}

/// The diagnostics about `file`, gathered in the order in which compiling it
/// reports them: parsing, its def map, its language items, then each item's
/// signature and body or constructors; those about other files are dropped,
/// and each distinct one is kept once, where it first appears.
pub fn gather_file_diagnostics(
    file: u32,
    parse: &Vec<Diagnostic>,
    def_map: &Vec<Diagnostic>,
    lang_items: &Vec<Diagnostic>,
    items: &Vec<ElaboratedItem>,
) -> (r: Vec<Diagnostic>)
    ensures
        r@.map_values(|d: Diagnostic| diag_view(d)) == spec_file_diagnostics(
            file,
            parse@ + def_map@ + lang_items@ + item_diagnostics(items@),
        ),
{
    let mut all: Vec<Diagnostic> = Vec::new();
    append_copies(&mut all, parse);
    append_copies(&mut all, def_map);
    append_copies(&mut all, lang_items);
    let ghost head = parse@ + def_map@ + lang_items@;
    proof {
        assert(head.map_values(|d: Diagnostic| diag_view(d)) =~= parse@.map_values(|d: Diagnostic| diag_view(d))
            + def_map@.map_values(|d: Diagnostic| diag_view(d)) + lang_items@.map_values(|d: Diagnostic| diag_view(d)));
        assert(items@.take(0) =~= Seq::<ElaboratedItem>::empty());
        assert(head + item_diagnostics(items@.take(0)) =~= head);
    }
    let mut k: usize = 0;
    while k < items.len()
        invariant
            k <= items@.len(),
            head == parse@ + def_map@ + lang_items@,
            all@.map_values(|d: Diagnostic| diag_view(d)) == (head + item_diagnostics(items@.take(k as int))).map_values(
                |d: Diagnostic| diag_view(d),
            ),
        decreases items.len() - k,
    {
        let ghost before = head + item_diagnostics(items@.take(k as int));
        append_copies(&mut all, &items[k].diagnostics);
        proof {
            assert(items@.take(k + 1).drop_last() =~= items@.take(k as int));
            assert(items@.take(k + 1).last() == items@[k as int]);
            let after = head + item_diagnostics(items@.take(k + 1));
            assert(after =~= before + items@[k as int].diagnostics@);
            assert(after.map_values(|d: Diagnostic| diag_view(d)) =~= before.map_values(|d: Diagnostic| diag_view(d))
                + items@[k as int].diagnostics@.map_values(|d: Diagnostic| diag_view(d)));
        }
        k = k + 1;
    }
    let mut groups: Vec<Vec<Diagnostic>> = Vec::new();
    let ghost all_seq = all@;
    groups.push(all);
    let r = file_diagnostics(file, &groups);
    proof {
        assert(groups@.drop_last() =~= Seq::<Vec<Diagnostic>>::empty());
        assert(flatten(groups@.drop_last()) == Seq::<Diagnostic>::empty());
        assert(groups@.last()@ == all_seq);
        assert(flatten(groups@) =~= all_seq);
        assert(items@.take(items@.len() as int) =~= items@);
        lemma_file_diagnostics_views(file, all_seq, head + item_diagnostics(items@));
    }
    r
}

/// How a kind of item is written in a dump.
pub open spec fn kind_text(k: ItemKind) -> Seq<char> {
    match k {
        ItemKind::Def => "def"@,
        ItemKind::Inductive => "inductive"@,
        ItemKind::Constructor => "constructor"@,
    }
}

/// How a kind of item is written in a dump.
pub fn kind_str(k: ItemKind) -> (r: &'static str)
    ensures
        r@ == kind_text(k),
{
    match k {
        ItemKind::Def => "def",
        ItemKind::Inductive => "inductive",
        ItemKind::Constructor => "constructor",
    }
}

/// The dump of an elaborated item: `kind name [#index] : type`, then
/// `  := value` for a definition with a body, each on a line of its own.
pub open spec fn item_dump(items: Seq<ItemData>, names: Seq<Seq<char>>, e: ElaboratedItem) -> Seq<char> {
    let d = items[e.id.0 as int];
    kind_text(d.kind) + " "@ + symbol_text(names, d.name) + " [#"@ + nat_decimal(d.ast_index as nat) + "] : "@
        + spec_term_text(items, names, e.signature.ty, 0) + "\n"@ + match e.def_body {
        Some(b) => "  := "@ + spec_term_text(items, names, b.value, 0) + "\n"@,
        None => Seq::empty(),
    }
}

/// The dumps of `es`, each after an empty line.
pub open spec fn items_dump(items: Seq<ItemData>, names: Seq<Seq<char>>, es: Seq<ElaboratedItem>) -> Seq<char>
    decreases es.len(),
{
    if es.len() == 0 {
        Seq::empty()
    } else {
        items_dump(items, names, es.drop_last()) + "\n"@ + item_dump(items, names, es.last())
    }
}

/// Appends the dump of `e` to `out`.
#[verifier::rlimit(30)]
pub fn write_item(out: &mut Vec<char>, env: &Env, table: &SymbolTable, e: &ElaboratedItem)
    requires
        (e.id.0 as int) < env.items@.len(),
    ensures
        final(out)@ == old(out)@ + item_dump(env.items@, table@, *e),
{
    let d = env.items[e.id.0 as usize];
    let ghost o0 = out@;
    push_str(out, kind_str(d.kind));
    push_str(out, " ");
    write_symbol(out, table, d.name);
    let ghost o1 = out@;
    assert(o1 =~= o0 + kind_text(d.kind) + " "@ + symbol_text(table@, d.name));
    push_str(out, " [#");
    push_decimal(out, d.ast_index as u64);
    push_str(out, "] : ");
    let ghost o2 = out@;
    assert(o2 =~= o1 + " [#"@ + nat_decimal(d.ast_index as nat) + "] : "@);
    write_term(out, env, table, &e.signature.ty, 0);
    push_str(out, "\n");
    let ghost head = out@;
    assert(head =~= o2 + spec_term_text(env.items@, table@, e.signature.ty, 0) + "\n"@);
    match &e.def_body {
        Some(b) => {
            push_str(out, "  := ");
            write_term(out, env, table, &b.value, 0);
            push_str(out, "\n");
            assert(out@ =~= head + ("  := "@ + spec_term_text(env.items@, table@, b.value, 0) + "\n"@));
        },
        None => {
            assert(out@ =~= head + Seq::<char>::empty());
        },
    }
    proof {
        assert(out@ =~= old(out)@ + item_dump(env.items@, table@, *e));
    }
}

/// The dump of an elaborated file: a header with the number of items, then
/// each item after an empty line.
pub fn debug_file(env: &Env, table: &SymbolTable, items: &Vec<ElaboratedItem>) -> (r: String)
    requires
        forall|k: int| 0 <= k < items@.len() ==> ((#[trigger] items@[k]).id.0 as int) < env.items@.len(),
    ensures
        r@ == "elaborated module ("@ + nat_decimal(items@.len()) + " items)\n"@ + items_dump(env.items@, table@, items@),
{
    let mut out: Vec<char> = Vec::new();
    push_str(&mut out, "elaborated module (");
    push_decimal(&mut out, items.len() as u64);
    push_str(&mut out, " items)\n");
    let ghost head = out@;
    let mut i: usize = 0;
    while i < items.len()
        invariant
            i <= items@.len(),
            forall|k: int| 0 <= k < items@.len() ==> ((#[trigger] items@[k]).id.0 as int) < env.items@.len(),
            out@ == head + items_dump(env.items@, table@, items@.take(i as int)),
        decreases items.len() - i,
    {
        push_str(&mut out, "\n");
        write_item(&mut out, env, table, &items[i]);
        proof {
            assert(items@.take(i + 1).drop_last() =~= items@.take(i as int));
            assert(items@.take(i + 1).last() == items@[i as int]);
            assert(out@ =~= head + items_dump(env.items@, table@, items@.take(i + 1)));
        }
        i = i + 1;
    }
    proof {
        assert(items@.take(items@.len() as int) =~= items@);
    }
    string_from_chars(out.as_slice())
}
} // verus!
