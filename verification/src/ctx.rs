//! The elaboration context: everything the elaborator tracks while it checks
//! one declaration.

use vstd::prelude::*;
use crate::diagnostics::{Diagnostic, TextRange};
use crate::env::Env;
use crate::lang_items::LanguageItems;
use crate::namespace::Namespace;
use crate::ids::{ItemId, Symbol, Unique, UniqueGen};
use crate::local::{LocalBinder, LocalCtx};
use crate::meta::MetaCtx;
use crate::reduce::{spec_whnf, whnf_with_mvars};
use crate::term::{BinderInfo, FreeBinder, Level, Term};

verus! {

/// Reduction steps allowed to each weak-head reduction and each unification.
pub const REDUCTION_BUDGET: usize = 10000;

/// What the elaborator is doing, for diagnostics.
#[derive(Debug, Clone, Copy, PartialEq, Eq, Structural)]
pub enum Frame {
    DefBody { name: Symbol },
}

/// State of the elaboration of one declaration.
pub struct ElabCtx<'a> {
    pub env: &'a Env,
    /// The lang items of the file being elaborated.
    pub lang_items: &'a LanguageItems,
    /// The names visible in the file being elaborated.
    pub namespace: &'a Namespace,
    pub current_decl: ItemId,
    /// The file of the declaration being elaborated.
    pub file: u32,
    pub gen_: UniqueGen,
    pub lctx: LocalCtx,
    pub mctx: MetaCtx,
    pub frames: Vec<Frame>,
    pub autobound: Vec<FreeBinder>,
    /// Diagnostics reported so far, in order.
    pub diagnostics: Vec<Diagnostic>,
    /// Step budget of each reduction and unification.
    pub fuel: usize,
}

impl<'a> ElabCtx<'a> {
    /// A fresh context for elaborating `current_decl` of `file`.
    pub fn new(
        env: &'a Env,
        lang_items: &'a LanguageItems,
        namespace: &'a Namespace,
        current_decl: ItemId,
        file: u32,
    ) -> (cx: ElabCtx<'a>)
        ensures
            cx.env == env,
            cx.lang_items == lang_items,
            cx.namespace == namespace,
            cx.current_decl == current_decl,
            cx.file == file,
            cx.gen_.next_id() == 0,
            cx.lctx@.len() == 0,
            cx.mctx.metas().len() == 0,
            cx.mctx.solutions().len() == 0,
            cx.mctx.wf(),
            cx.frames@.len() == 0,
            cx.autobound@.len() == 0,
            cx.diagnostics@.len() == 0,
            cx.fuel == REDUCTION_BUDGET,
    {
        ElabCtx {
            env,
            lang_items,
            namespace,
            current_decl,
            file,
            gen_: UniqueGen::new(),
            lctx: LocalCtx::new(),
            mctx: MetaCtx::new(),
            frames: Vec::new(),
            autobound: Vec::new(),
            diagnostics: Vec::new(),
            fuel: REDUCTION_BUDGET,
        }
    }

    /// Brings a fresh local of type `ty` into scope and returns its name.
    pub fn fresh_fvar(
        &mut self,
        name: Option<Symbol>,
        ty: Term,
        info: BinderInfo,
        origin: TextRange,
        parent: Option<Unique>,
    ) -> (u: Unique)
        requires
            old(self).gen_.next_id() < u32::MAX,
        ensures
            u.0 == old(self).gen_.next_id(),
            final(self).gen_.next_id() == old(self).gen_.next_id() + 1,
            final(self).lctx@ == old(self).lctx@.push(
                LocalBinder { unique: u, name, ty, info, value: None, origin, parent },
            ),
            final(self).mctx == old(self).mctx,
            final(self).env == old(self).env,
            final(self).lang_items == old(self).lang_items,
            final(self).namespace == old(self).namespace,
            final(self).file == old(self).file,
            final(self).fuel == old(self).fuel,
            final(self).current_decl == old(self).current_decl,
            final(self).diagnostics == old(self).diagnostics,
            final(self).autobound == old(self).autobound,
            final(self).frames == old(self).frames,
    {
        let unique = self.gen_.fresh();
        self.lctx.push(LocalBinder { unique, name, ty, parent, info, value: None, origin });
        unique
    }

    /// A fresh hole of type `ty`, scoped to the current locals.
    pub fn fresh_mvar(&mut self, ty: Term) -> (t: Term)
        requires
            old(self).gen_.next_id() < u32::MAX,
        ensures
            t == Term::MVar(Unique(old(self).gen_.next_id())),
            final(self).gen_.next_id() == old(self).gen_.next_id() + 1,
            final(self).mctx.metas() == old(self).mctx.metas().push(
                (Unique(old(self).gen_.next_id()), ty, old(self).lctx@),
            ),
            final(self).mctx.solutions() == old(self).mctx.solutions(),
            final(self).lctx == old(self).lctx,
            final(self).env == old(self).env,
            final(self).lang_items == old(self).lang_items,
            final(self).namespace == old(self).namespace,
            final(self).file == old(self).file,
            final(self).fuel == old(self).fuel,
            final(self).current_decl == old(self).current_decl,
            final(self).diagnostics == old(self).diagnostics,
            final(self).autobound == old(self).autobound,
            final(self).frames == old(self).frames,
    {
        let u = self.gen_.fresh();
        let scope = self.lctx.copy();
        self.mctx.register_meta(u, ty, scope);
        Term::MVar(u)
    }

    /// A type whose universe is still to be determined: `Sort ?u` for a fresh `?u`.
    pub fn placeholder_ty(&mut self) -> (t: Term)
        requires
            old(self).gen_.next_id() < u32::MAX,
        ensures
            t == Term::Sort(Level::MVar(Unique(old(self).gen_.next_id()))),
            final(self).gen_.next_id() == old(self).gen_.next_id() + 1,
            final(self).lctx == old(self).lctx,
            final(self).mctx == old(self).mctx,
            final(self).env == old(self).env,
            final(self).lang_items == old(self).lang_items,
            final(self).namespace == old(self).namespace,
            final(self).diagnostics == old(self).diagnostics,
            final(self).file == old(self).file,
            final(self).fuel == old(self).fuel,
            final(self).current_decl == old(self).current_decl,
            final(self).autobound == old(self).autobound,
            final(self).frames == old(self).frames,
    {
        let u = self.gen_.fresh();
        Term::Sort(Level::MVar(u))
    }

    /// Weak head normal form under the current solutions, within the budget.
    pub fn whnf(&self, term: &Term) -> (r: Option<Term>)
        ensures
            r == spec_whnf(self.env.bodies@, self.mctx.solutions(), *term, self.fuel as nat),
    {
        whnf_with_mvars(self.env, &self.mctx, term, self.fuel)
    }
}

} // verus!
