//! Elaboration of surface syntax into core terms: literals, names, types and
//! binders, expressions, blocks and declarations.

use vstd::prelude::*;
use crate::ast::{Binder, LiteralNode, Name, Type};
use crate::ctx::ElabCtx;
use crate::diagnostics::{Diagnostic, Label, TextRange};
use crate::env::spec_signature;
use crate::ids::{ItemId, Symbol, SymbolTable, Unique};
use crate::naming::{is_autobindable, spec_is_autobindable};
use crate::import::table_grows;
use crate::lang_items::{chars_eq, spec_unquoted, LangItem};
use crate::literals::{spec_parse_error_message, spec_parse_number, value_holds, Literal, NumberLiteral};
use crate::local::{last_named, lemma_last_named_facts, LocalBinder};

use crate::namespace::{decl_lookup, level_below, names_below, qualified_below, spec_walk, Qualified};
use crate::suggest::{locals_below, qualified_text};
use crate::report::{diag_head, label_is, mismatch_diag, Expected};
use crate::term::{has_mvar, BinderInfo, FreeBinder, Level, Term};
use crate::text::{chars_of, push_str, string_from_chars};
use crate::subst::{abstract_fits, spec_abstract_at};
use crate::unify::{keeps, lemma_eq_term_keeps, lemma_keeps_refl, spec_eq_term};

verus! {

/// What elaboration may change, and how: the solutions, holes, names,
/// diagnostics and auto-bound locals only grow.
pub open spec fn elab_steps<'a>(
    before: ElabCtx<'a>,
    tb: Seq<Seq<char>>,
    after: ElabCtx<'a>,
    ta: Seq<Seq<char>>,
) -> bool {
    &&& after.env == before.env
    &&& after.lang_items == before.lang_items
    &&& after.namespace == before.namespace
    &&& after.fuel == before.fuel
    &&& after.file == before.file
    &&& after.current_decl == before.current_decl
    &&& after.frames@ == before.frames@
    &&& after.mctx.wf()
    &&& keeps(before.mctx.solutions(), after.mctx.solutions())
    &&& before.mctx.metas().is_prefix_of(after.mctx.metas())
    &&& before.gen_.next_id() <= after.gen_.next_id()
    &&& before.diagnostics@.is_prefix_of(after.diagnostics@)
    &&& before.autobound@.is_prefix_of(after.autobound@)
    &&& table_grows(tb, ta)
}

pub proof fn lemma_prefix_refl<A>(s: Seq<A>)
    ensures
        s.is_prefix_of(s),
{
    assert(s =~= s.subrange(0, s.len() as int));
}

pub proof fn lemma_prefix_trans<A>(a: Seq<A>, b: Seq<A>, c: Seq<A>)
    requires
        a.is_prefix_of(b),
        b.is_prefix_of(c),
    ensures
        a.is_prefix_of(c),
{
    assert forall|i: int| 0 <= i < a.len() implies #[trigger] c[i] == a[i] by {
        assert(a[i] == b.subrange(0, a.len() as int)[i]);
        assert(b[i] == c.subrange(0, b.len() as int)[i]);
    }
    assert(a =~= c.subrange(0, a.len() as int));
}

pub proof fn lemma_prefix_push<A>(a: Seq<A>, x: A)
    ensures
        a.is_prefix_of(a.push(x)),
{
    assert(a =~= a.push(x).subrange(0, a.len() as int));
}

pub proof fn lemma_elab_steps_refl<'a>(cx: ElabCtx<'a>, t: Seq<Seq<char>>)
    requires
        cx.mctx.wf(),
    ensures
        elab_steps(cx, t, cx, t),
{
    crate::unify::lemma_keeps_refl(cx.mctx.solutions());
    lemma_prefix_refl(cx.mctx.metas());
    lemma_prefix_refl(cx.diagnostics@);
    lemma_prefix_refl(cx.autobound@);
}

pub proof fn lemma_elab_steps_trans<'a>(
    a: ElabCtx<'a>,
    ta: Seq<Seq<char>>,
    b: ElabCtx<'a>,
    tb: Seq<Seq<char>>,
    c: ElabCtx<'a>,
    tc: Seq<Seq<char>>,
)
    requires
        elab_steps(a, ta, b, tb),
        elab_steps(b, tb, c, tc),
    ensures
        elab_steps(a, ta, c, tc),
{
    crate::unify::lemma_keeps_trans(a.mctx.solutions(), b.mctx.solutions(), c.mctx.solutions());
    lemma_prefix_trans(a.mctx.metas(), b.mctx.metas(), c.mctx.metas());
    lemma_prefix_trans(a.diagnostics@, b.diagnostics@, c.diagnostics@);
    lemma_prefix_trans(a.autobound@, b.autobound@, c.autobound@);
    assert forall|i: int| 0 <= i < ta.len() implies #[trigger] tc[i] == ta[i] by {
        assert(tb[i] == ta[i]);
    }
}

/// The symbol of text `t` in a table that holds it.
pub open spec fn sym_for(names: Seq<Seq<char>>, t: Seq<char>) -> Symbol {
    Symbol((choose|i: int| 0 <= i < names.len() && names[i] == t) as u32)
}

/// The text of a path segment: its identifier, or `<unknown>` where it has none.
pub open spec fn segment_text(seg: Option<String>) -> Seq<char> {
    match seg {
        Some(s) => s@,
        None => "<unknown>"@,
    }
}

/// A symbol table with room for one more name.
pub open spec fn has_room(names: Seq<Seq<char>>) -> bool {
    names.len() + 1 < u32::MAX
}

/// Interns `text` where the table has room for it.
pub fn intern(table: &mut SymbolTable, text: &str) -> (r: Option<Symbol>)
    requires
        old(table).wf(),
    ensures
        final(table).wf(),
        table_grows(old(table)@, final(table)@),
        has_room(old(table)@) ==> (r matches Some(s) && (s.0 as int) < final(table)@.len()
            && final(table)@[s.0 as int] == text@ && s == sym_for(final(table)@, text@)),
        !has_room(old(table)@) ==> r is None && final(table)@ == old(table)@,
        final(table)@.len() <= old(table)@.len() + 1,
{
    if table.len() < (u32::MAX as usize) - 1 {
        let s = Symbol::from_str(table, text);
        proof {
            let i = choose|i: int| 0 <= i < table@.len() && table@[i] == text@;
            assert(table@[s.0 as int] == text@);
            assert(i == s.0 as int);
        }
        Some(s)
    } else {
        None
    }
}

impl<'a> ElabCtx<'a> {
    /// The term of a literal. A number that does not parse is reported; a
    /// literal the parser left without text, or a string without its quotes,
    /// is the poisoned term.
    pub fn lower_literal(&mut self, lit: &LiteralNode) -> (r: Term)
        requires
            old(self).mctx.wf(),
        ensures
            final(self).env == old(self).env,
            final(self).lang_items == old(self).lang_items,
            final(self).namespace == old(self).namespace,
            final(self).fuel == old(self).fuel,
            final(self).file == old(self).file,
            final(self).current_decl == old(self).current_decl,
            final(self).frames == old(self).frames,
            final(self).lctx == old(self).lctx,
            final(self).mctx == old(self).mctx,
            final(self).gen_ == old(self).gen_,
            final(self).autobound == old(self).autobound,
            old(self).diagnostics@.is_prefix_of(final(self).diagnostics@),
            match *lit {
                LiteralNode::Number { text: Some(t), range } => match spec_parse_number(t@) {
                    Ok((v, x)) => {
                        &&& (r matches Term::Lit(Literal::Numeric(n)) && value_holds(n.value, v) && n.suffix == x)
                        &&& final(self).diagnostics@ == old(self).diagnostics@
                    },
                    Err(em) => {
                        &&& r is Error
                        &&& final(self).diagnostics@.len() == old(self).diagnostics@.len() + 1
                        &&& final(self).diagnostics@.drop_last() == old(self).diagnostics@
                        &&& diag_head(final(self).diagnostics@.last(), old(self).file, range, spec_parse_error_message(em))
                        &&& final(self).diagnostics@.last().primary.message is None
                        &&& final(self).diagnostics@.last().notes@.len() == 0
                    },
                },
                LiteralNode::Str { text: Some(t), .. } => {
                    &&& match spec_unquoted(t@) {
                        Some(u) => r matches Term::Lit(Literal::Text(s)) && s@ == u,
                        None => r is Error,
                    }
                    &&& final(self).diagnostics@ == old(self).diagnostics@
                },
                _ => r is Error && final(self).diagnostics@ == old(self).diagnostics@,
            },
    {
        proof {
            lemma_prefix_refl(self.diagnostics@);
        }
        match lit {
            LiteralNode::Number { text: None, .. } => self.error_term(),
            LiteralNode::Number { text: Some(t), range } => {
                let c = chars_of(t.as_str());
                match NumberLiteral::from_chars(&c) {
                    Ok(n) => Term::Lit(Literal::Numeric(n)),
                    Err(e) => {
                        let m = e.message();
                        let d = self.mk_error(*range, m.as_str());
                        let r = self.error(d).0;
                        assert(self.diagnostics@.drop_last() =~= old(self).diagnostics@);
                        assert(self.diagnostics@.subrange(0, old(self).diagnostics@.len() as int) =~= old(self).diagnostics@);
                        r
                    },
                }
            },
            LiteralNode::Str { text: None, .. } => self.error_term(),
            LiteralNode::Str { text: Some(t), .. } => {
                match crate::lang_items::unquoted(t.as_str()) {
                    Some(u) => Term::Lit(Literal::Text(u)),
                    None => self.error_term(),
                }
            },
        }
    }
}

/// The symbols `syms` name the texts `texts` in the table `names`.
pub open spec fn names_texts(names: Seq<Seq<char>>, syms: Seq<Symbol>, texts: Seq<Seq<char>>) -> bool {
    &&& syms.len() == texts.len()
    &&& forall|k: int|
        0 <= k < syms.len() ==> (#[trigger] syms[k].0 as int) < names.len() && names[syms[k].0 as int]
            == texts[k] && syms[k] == sym_for(names, texts[k])
}

/// The texts of the path of a name.
pub open spec fn path_texts(name: Name) -> Seq<Seq<char>> {
    name.path@.map_values(|seg: Option<String>| segment_text(seg))
}

/// The symbol of a text stays the same as the table grows.
pub proof fn lemma_sym_for_stable(t1: Seq<Seq<char>>, t2: Seq<Seq<char>>, s: Symbol, text: Seq<char>)
    requires
        table_grows(t1, t2),
        (s.0 as int) < t1.len(),
        t1[s.0 as int] == text,
        s == sym_for(t1, text),
        forall|i: int, j: int|
            0 <= i < t2.len() && 0 <= j < t2.len() && i != j ==> #[trigger] t2[i] != #[trigger] t2[j],
    ensures
        s == sym_for(t2, text),
{
    assert(t2[s.0 as int] == text);
    let i = choose|i: int| 0 <= i < t2.len() && t2[i] == text;
    assert(i == s.0 as int);
}

/// Interns the path segments of `name`, `<unknown>` for a segment without identifier.
pub fn name_path(table: &mut SymbolTable, name: &Name) -> (r: Option<Vec<Symbol>>)
    requires
        old(table).wf(),
    ensures
        final(table).wf(),
        table_grows(old(table)@, final(table)@),
        r matches Some(p) ==> names_texts(final(table)@, p@, path_texts(*name)),
        old(table)@.len() + name.path@.len() + 1 < u32::MAX ==> r is Some,
        name.path@.len() == 0 ==> r is Some,
        final(table)@.len() <= old(table)@.len() + name.path@.len(),
{
    let mut out: Vec<Symbol> = Vec::new();
    let mut k: usize = 0;
    let ghost t0 = table@;
    while k < name.path.len()
        invariant
            k <= name.path@.len(),
            table.wf(),
            table_grows(t0, table@),
            t0 == old(table)@,
            table@.len() <= t0.len() + k,
            t0.len() + name.path@.len() + 1 < u32::MAX ==> has_room(table@),
            names_texts(table@, out@, path_texts(*name).take(k as int)),
        decreases name.path.len() - k,
    {
        let text: &str = match &name.path[k] {
            Some(t) => t.as_str(),
            None => "<unknown>",
        };
        let ghost tb = table@;
        let ghost ob = out@;
        match intern(table, text) {
            Some(s) => {
                out.push(s);
                proof {
                    assert(text@ == segment_text(name.path@[k as int]));
                    assert(path_texts(*name).take(k + 1) =~= path_texts(*name).take(k as int).push(text@));
                    assert forall|j: int| 0 <= j < out@.len() implies (#[trigger] out@[j].0 as int) < table@.len()
                        && table@[out@[j].0 as int] == path_texts(*name).take(k + 1)[j] && out@[j] == sym_for(
                        table@,
                        path_texts(*name).take(k + 1)[j],
                    ) by {
                        if j < k {
                            assert(out@[j] == ob[j]);
                            lemma_sym_for_stable(tb, table@, ob[j], path_texts(*name).take(k as int)[j]);
                        }
                    }
                }
            },
            None => return None,
        }
        k = k + 1;
    }
    proof {
        assert(path_texts(*name).take(name.path@.len() as int) =~= path_texts(*name));
    }
    Some(out)
}

/// How `try_resolve_name` resolves a member `ms` at path `ps`: a local of
/// that name, innermost first, else a declaration of the namespace.
pub open spec fn spec_resolve(
    lctx: Seq<LocalBinder>,
    ns: crate::namespace::Namespace,
    sigs: Seq<Term>,
    ps: Seq<Symbol>,
    ms: Symbol,
) -> Option<(Term, Term)> {
    match last_named(lctx, ms) {
        Some(i) => Some((Term::FVar(lctx[i].unique), lctx[i].ty)),
        None => match spec_walk(ns, ps) {
            Some(n) => match decl_lookup(n.decls@, ms) {
                Some(item) => match spec_signature(sigs, item) {
                    Some(ty) => Some((Term::Const(item), ty)),
                    None => None,
                },
                None => None,
            },
            None => None,
        },
    }
}

/// `Sort 2`, the type of `Type`.
pub open spec fn sort2() -> Term {
    Term::Sort(Level::Succ(Box::new(Level::Succ(Box::new(Level::Zero)))))
}

impl<'a> ElabCtx<'a> {
    /// Resolves a name: `Type`, a local, or a declaration of the namespace,
    /// with its type. Names are interned in `table`.
    pub fn try_resolve_name(&self, table: &mut SymbolTable, name: &Name) -> (r: Option<(Term, Term)>)
        requires
            old(table).wf(),
        ensures
            final(table).wf(),
            table_grows(old(table)@, final(table)@),
            final(table)@.len() <= old(table)@.len() + name.path@.len() + 1,
            match name.member {
                None => r is None,
                Some(m) => if m@ == "Type"@ && name.path@.len() == 0 {
                    r == Some((Term::Sort(Level::Succ(Box::new(Level::Zero))), sort2()))
                } else {
                    r is Some ==> exists|ps: Seq<Symbol>| #![auto] names_texts(final(table)@, ps, path_texts(*name))
                        && r == spec_resolve(self.lctx@, *self.namespace, self.env.signatures@, ps, sym_for(final(table)@, m@))
                },
            },
            old(table)@.len() + name.path@.len() + 2 < u32::MAX ==> match name.member {
                Some(m) => !(m@ == "Type"@ && name.path@.len() == 0) ==> exists|ps: Seq<Symbol>|
                    #![auto] names_texts(final(table)@, ps, path_texts(*name)) && r == spec_resolve(
                    self.lctx@,
                    *self.namespace,
                    self.env.signatures@,
                    ps,
                    sym_for(final(table)@, m@),
                ),
                None => true,
            },
    {
        let path = match name_path(table, name) {
            Some(p) => p,
            None => return None,
        };
        match &name.member {
            None => None,
            Some(m) => {
                let mc = chars_of(m.as_str());
                if chars_eq(&mc, &chars_of("Type")) && path.len() == 0 {
                    return Some((Term::type0(), Term::Sort(Level::two())));
                }
                let ghost tp = table@;
                let member = match intern(table, m.as_str()) {
                    Some(s) => s,
                    None => return None,
                };
                proof {
                    assert forall|k: int| 0 <= k < path@.len() implies (#[trigger] path@[k].0 as int)
                        < table@.len() && table@[path@[k].0 as int] == path_texts(*name)[k] && path@[k]
                        == sym_for(table@, path_texts(*name)[k]) by {
                        lemma_sym_for_stable(tp, table@, path@[k], path_texts(*name)[k]);
                    }
                    assert(names_texts(table@, path@, path_texts(*name)));
                    lemma_last_named_facts(self.lctx@, member);
                }
                match self.lctx.find_by_name(member) {
                    Some(local) => {
                        let r = Some((Term::FVar(local.unique), local.ty.copy()));
                        assert(r == spec_resolve(self.lctx@, *self.namespace, self.env.signatures@, path@, member));
                        return r;
                    },
                    None => {},
                }
                let item = match self.namespace.resolve(path.as_slice(), member) {
                    Some(i) => i,
                    None => {
                        assert(spec_resolve(self.lctx@, *self.namespace, self.env.signatures@, path@, member) is None);
                        return None;
                    },
                };
                let r = match self.env.signature(item) {
                    Some(ty) => Some((Term::Const(item), ty.copy())),
                    None => None,
                };
                assert(r == spec_resolve(self.lctx@, *self.namespace, self.env.signatures@, path@, member));
                r
            },
        }
    }
}

/// The context is fit for elaboration against the symbol table `names`: its
/// solutions are consistent, its lang items well formed, every name of its
/// namespace and of its locals comes from the table, and its auto-bound
/// locals are implicit binders of universes.
pub open spec fn ready<'a>(cx: ElabCtx<'a>, names: Seq<Seq<char>>) -> bool {
    &&& cx.mctx.wf()
    &&& cx.lang_items.wf()
    &&& names_below(*cx.namespace, names.len())
    &&& locals_below(cx.lctx@, names.len())
    &&& autobound_implicit(cx.autobound@)
}

/// Every auto-bound local is an implicit binder whose type is a universe.
pub open spec fn autobound_implicit(ab: Seq<FreeBinder>) -> bool {
    forall|k: int| 0 <= k < ab.len() ==> (#[trigger] ab[k]).info == BinderInfo::Implicit && ab[k].ty is Sort
}

/// One elaboration step: what `elab_steps` allows, locals that only grow, and
/// a context still ready for the table after it.
pub open spec fn elab_frame<'a>(
    before: ElabCtx<'a>,
    tb: Seq<Seq<char>>,
    after: ElabCtx<'a>,
    ta: Seq<Seq<char>>,
) -> bool {
    &&& elab_steps(before, tb, after, ta)
    &&& before.lctx@.is_prefix_of(after.lctx@)
    &&& ready(after, ta)
}

pub proof fn lemma_ready_grows<'a>(cx: ElabCtx<'a>, t1: Seq<Seq<char>>, t2: Seq<Seq<char>>)
    requires
        ready(cx, t1),
        t1.len() <= t2.len(),
    ensures
        ready(cx, t2),
{
    assert forall|p: Seq<Symbol>| #[trigger] spec_walk(*cx.namespace, p) is Some implies level_below(
        spec_walk(*cx.namespace, p).unwrap(),
        t2.len(),
    ) by {
        assert(level_below(spec_walk(*cx.namespace, p).unwrap(), t1.len()));
    }
}

pub proof fn lemma_frame_refl<'a>(cx: ElabCtx<'a>, t: Seq<Seq<char>>)
    requires
        ready(cx, t),
    ensures
        elab_frame(cx, t, cx, t),
{
    lemma_elab_steps_refl(cx, t);
    lemma_prefix_refl(cx.lctx@);
}

pub proof fn lemma_frame_trans<'a>(
    a: ElabCtx<'a>,
    ta: Seq<Seq<char>>,
    b: ElabCtx<'a>,
    tb: Seq<Seq<char>>,
    c: ElabCtx<'a>,
    tc: Seq<Seq<char>>,
)
    requires
        elab_frame(a, ta, b, tb),
        elab_frame(b, tb, c, tc),
    ensures
        elab_frame(a, ta, c, tc),
{
    lemma_elab_steps_trans(a, ta, b, tb, c, tc);
    lemma_prefix_trans(a.lctx@, b.lctx@, c.lctx@);
}

impl<'a> ElabCtx<'a> {
    /// Binds `name` automatically: a fresh implicit local whose type is a
    /// universe still to be determined, remembered among the auto-bound.
    pub fn fresh_autobound(&mut self, name: Symbol, origin: TextRange) -> (t: Term)
        requires
            old(self).gen_.next_id() + 1 < u32::MAX,
        ensures
            ({
                let u = Unique(old(self).gen_.next_id());
                let x = Unique((old(self).gen_.next_id() + 1) as u32);
                let sort = Term::Sort(Level::MVar(u));
                &&& t == Term::FVar(x)
                &&& final(self).gen_.next_id() == old(self).gen_.next_id() + 2
                &&& final(self).lctx@ == old(self).lctx@.push(
                    LocalBinder {
                        unique: x,
                        name: Some(name),
                        ty: sort,
                        info: BinderInfo::Implicit,
                        value: None,
                        origin,
                        parent: None,
                    },
                )
                &&& final(self).autobound@ == old(self).autobound@.push(
                    FreeBinder { fvar: x, info: BinderInfo::Implicit, ty: sort },
                )
            }),
            final(self).mctx == old(self).mctx,
            final(self).env == old(self).env,
            final(self).lang_items == old(self).lang_items,
            final(self).namespace == old(self).namespace,
            final(self).file == old(self).file,
            final(self).fuel == old(self).fuel,
            final(self).current_decl == old(self).current_decl,
            final(self).diagnostics == old(self).diagnostics,
            final(self).frames == old(self).frames,
    {
        let u = self.gen_.fresh();
        let sort = Term::Sort(Level::MVar(u));
        let fvar = self.fresh_fvar(Some(name), sort.copy(), BinderInfo::Implicit, origin, None);
        self.autobound.push(FreeBinder::new(fvar, BinderInfo::Implicit, sort));
        Term::FVar(fvar)
    }

    /// The declaration marked as lang item `item`, or the poisoned term after
    /// reporting that the file has none.
    pub fn lang_item(&mut self, item: LangItem, range: TextRange) -> (t: Term)
        requires
            old(self).lang_items.wf(),
        ensures
            old(self).lang_items@.contains_key(item) ==> t == Term::Const(old(self).lang_items@[item])
                && final(self).diagnostics == old(self).diagnostics,
            !old(self).lang_items@.contains_key(item) ==> {
                let d = final(self).diagnostics@.last();
                &&& t is Error
                &&& final(self).diagnostics@.len() == old(self).diagnostics@.len() + 1
                &&& final(self).diagnostics@.drop_last() == old(self).diagnostics@
                &&& diag_head(d, old(self).file, range, "missing language item: "@ + item.spec_text())
                &&& d.primary.message is None
                &&& d.notes@.len() == 0
                &&& d.helps@.len() == 1
                &&& d.helps@[0]@ == "define or import an item annotated with `@[lang \""@ + item.spec_text()
                    + "\"]`"@
            },
            final(self).env == old(self).env,
            final(self).lang_items == old(self).lang_items,
            final(self).namespace == old(self).namespace,
            final(self).fuel == old(self).fuel,
            final(self).lctx == old(self).lctx,
            final(self).mctx == old(self).mctx,
            final(self).gen_ == old(self).gen_,
            final(self).current_decl == old(self).current_decl,
            final(self).file == old(self).file,
            final(self).autobound == old(self).autobound,
            final(self).frames == old(self).frames,
    {
        let mut candidates: Vec<LangCandidate> = Vec::new();
        match self.lang_items.get(item) {
            Some(id) => candidates.push(LangCandidate { id, defined_at: None }),
            None => {},
        }
        self.lang_item_among(item, range, &candidates)
    }

    /// The item that stands for `item`, where `candidates` are the items
    /// annotated as it that can be seen: the one, if there is exactly one;
    /// otherwise the poisoned term, and a reported error: the language item
    /// is missing, with a help on how to provide it, or it is ambiguous, with
    /// a label at each candidate whose definition is known.
    pub fn lang_item_among(&mut self, item: LangItem, range: TextRange, candidates: &Vec<LangCandidate>) -> (t: Term)
        ensures
            candidates@.len() == 1 ==> t == Term::Const(candidates@[0].id) && final(self).diagnostics
                == old(self).diagnostics,
            candidates@.len() == 0 ==> {
                let d = final(self).diagnostics@.last();
                &&& t is Error
                &&& final(self).diagnostics@.len() == old(self).diagnostics@.len() + 1
                &&& final(self).diagnostics@.drop_last() == old(self).diagnostics@
                &&& diag_head(d, old(self).file, range, "missing language item: "@ + item.spec_text())
                &&& d.primary.message is None
                &&& d.secondaries@.len() == 0
                &&& d.notes@.len() == 0
                &&& d.helps@.len() == 1
                &&& d.helps@[0]@ == "define or import an item annotated with `@[lang \""@ + item.spec_text()
                    + "\"]`"@
            },
            candidates@.len() > 1 ==> {
                let d = final(self).diagnostics@.last();
                let sites = candidate_sites(candidates@);
                &&& t is Error
                &&& final(self).diagnostics@.len() == old(self).diagnostics@.len() + 1
                &&& final(self).diagnostics@.drop_last() == old(self).diagnostics@
                &&& diag_head(d, old(self).file, range, "ambiguous language item `"@ + item.spec_text() + "`"@)
                &&& d.primary.message is None
                &&& d.notes@.len() == 0
                &&& d.helps@.len() == 0
                &&& d.secondaries@.len() == sites.len()
                &&& forall|k: int| 0 <= k < sites.len() ==> label_is(
                    #[trigger] d.secondaries@[k],
                    sites[k].0,
                    sites[k].1,
                    "candidate defined here"@,
                )
            },
            final(self).env == old(self).env,
            final(self).lang_items == old(self).lang_items,
            final(self).namespace == old(self).namespace,
            final(self).fuel == old(self).fuel,
            final(self).lctx == old(self).lctx,
            final(self).mctx == old(self).mctx,
            final(self).gen_ == old(self).gen_,
            final(self).current_decl == old(self).current_decl,
            final(self).file == old(self).file,
            final(self).autobound == old(self).autobound,
            final(self).frames == old(self).frames,
    {
        if candidates.len() == 0 {
            let mut msg: Vec<char> = Vec::new();
            push_str(&mut msg, "missing language item: ");
            push_str(&mut msg, item.as_str());
            let m = string_from_chars(msg.as_slice());
            let mut help: Vec<char> = Vec::new();
            push_str(&mut help, "define or import an item annotated with `@[lang \"");
            push_str(&mut help, item.as_str());
            push_str(&mut help, "\"]`");
            let d = self.mk_error(range, m.as_str()).with_help(string_from_chars(help.as_slice()));
            let r = self.error(d).0;
            assert(self.diagnostics@.drop_last() =~= old(self).diagnostics@);
            return r;
        }
        if candidates.len() == 1 {
            return Term::Const(candidates[0].id);
        }
        let mut msg: Vec<char> = Vec::new();
        push_str(&mut msg, "ambiguous language item `");
        push_str(&mut msg, item.as_str());
        push_str(&mut msg, "`");
        let m = string_from_chars(msg.as_slice());
        let mut d = self.mk_error(range, m.as_str());
        let mut k: usize = 0;
        while k < candidates.len()
            invariant
                k <= candidates@.len(),
                diag_head(d.inner, self.file, range, "ambiguous language item `"@ + item.spec_text() + "`"@),
                d.inner.primary.message is None,
                d.inner.notes@.len() == 0,
                d.inner.helps@.len() == 0,
                d.inner.secondaries@.len() == candidate_sites(candidates@.take(k as int)).len(),
                forall|j: int| 0 <= j < candidate_sites(candidates@.take(k as int)).len() ==> label_is(
                    #[trigger] d.inner.secondaries@[j],
                    candidate_sites(candidates@.take(k as int))[j].0,
                    candidate_sites(candidates@.take(k as int))[j].1,
                    "candidate defined here"@,
                ),
            decreases candidates.len() - k,
        {
            proof {
                assert(candidates@.take(k + 1).drop_last() =~= candidates@.take(k as int));
                assert(candidates@.take(k + 1).last() == candidates@[k as int]);
            }
            match candidates[k].defined_at {
                Some((file, at)) => {
                    let mut text: Vec<char> = Vec::new();
                    push_str(&mut text, "candidate defined here");
                    let label = Label { file, range: at, message: Some(string_from_chars(text.as_slice())) };
                    d = d.with_secondary_label(label);
                },
                None => {},
            }
            k = k + 1;
        }
        proof {
            assert(candidates@.take(candidates@.len() as int) =~= candidates@);
        }
        let r = self.error(d).0;
        assert(self.diagnostics@.drop_last() =~= old(self).diagnostics@);
        r
    }
}

/// An item annotated as a language item, and where it is defined, where
/// that is known: its file and range.
#[derive(Debug)]
pub struct LangCandidate {
    pub id: ItemId,
    pub defined_at: Option<(u32, TextRange)>,
}

/// Where the candidates whose definition is known are defined, in order.
pub open spec fn candidate_sites(cs: Seq<LangCandidate>) -> Seq<(u32, TextRange)>
    decreases cs.len(),
{
    if cs.len() == 0 {
        Seq::empty()
    } else {
        let rest = candidate_sites(cs.drop_last());
        match cs.last().defined_at {
            Some(site) => rest.push(site),
            None => rest,
        }
    }
}

/// What checking `found` against `expected` does: the unification's
/// solutions, and a mismatch reported where it fails.
pub open spec fn checked_against<'a>(
    before: ElabCtx<'a>,
    after: ElabCtx<'a>,
    names: Seq<Seq<char>>,
    range: TextRange,
    found: Term,
    expected: Expected,
) -> bool {
    let u = spec_eq_term(before.env.bodies@, before.mctx.metas(), before.mctx.solutions(), found, expected.ty, before.fuel as nat);
    &&& after.mctx.solutions() == u.1
    &&& after.mctx.metas() == before.mctx.metas()
    &&& match u.0 {
        Ok(()) => after.diagnostics@ == before.diagnostics@,
        Err(e) => {
            &&& after.diagnostics@.len() == before.diagnostics@.len() + 1
            &&& after.diagnostics@.drop_last() == before.diagnostics@
            &&& mismatch_diag(after.diagnostics@.last(), before.env.items@, names, before.file, before.frames@, range, found, expected, e)
        },
    }
}

impl<'a> ElabCtx<'a> {
    /// Unifies `found` with the expected type, reporting a mismatch at `range`.
    pub fn expect_type(&mut self, table: &SymbolTable, range: TextRange, found: &Term, expected: &Expected)
        requires
            ready(*old(self), table@),
        ensures
            checked_against(*old(self), *final(self), table@, range, *found, *expected),
            elab_frame(*old(self), table@, *final(self), table@),
            final(self).lctx == old(self).lctx,
            final(self).gen_ == old(self).gen_,
            final(self).autobound == old(self).autobound,
    {
        proof {
            lemma_eq_term_keeps(self.env.bodies@, self.mctx.metas(), self.mctx.solutions(), *found, expected.ty, self.fuel as nat);
            lemma_prefix_refl(self.mctx.metas());
            lemma_prefix_refl(self.lctx@);
            lemma_prefix_refl(self.autobound@);
        }
        let ghost before = *self;
        match self.unify(found, &expected.ty) {
            Ok(()) => {
                proof {
                    lemma_prefix_refl(self.diagnostics@);
                }
            },
            Err(e) => {
                self.report_mismatch(table, range, found, expected, &e);
                proof {
                    lemma_prefix_refl(before.diagnostics@);
                    assert(before.diagnostics@.is_prefix_of(self.diagnostics@)) by {
                        assert(self.diagnostics@.subrange(0, before.diagnostics@.len() as int) =~= before.diagnostics@);
                    }
                }
            },
        }
        proof {
            lemma_prefix_refl(old(self).frames@);
        }
    }

    /// The unit value and the unit type, each a lang item; with an expected
    /// type, the unit type is checked against it.
    pub fn unit_value(&mut self, table: &SymbolTable, range: TextRange, expected: Option<&Expected>) -> (r: (Term, Term))
        requires
            ready(*old(self), table@),
        ensures
            elab_frame(*old(self), table@, *final(self), table@),
            final(self).lctx == old(self).lctx,
            final(self).gen_ == old(self).gen_,
            final(self).autobound == old(self).autobound,
            old(self).lang_items@.contains_key(LangItem::UnitConstructor) ==> r.0 == Term::Const(
                old(self).lang_items@[LangItem::UnitConstructor],
            ),
            !old(self).lang_items@.contains_key(LangItem::UnitConstructor) ==> r.0 is Error
                && final(self).diagnostics@.len() > old(self).diagnostics@.len(),
            old(self).lang_items@.contains_key(LangItem::Unit) ==> r.1 == Term::Const(
                old(self).lang_items@[LangItem::Unit],
            ),
            !old(self).lang_items@.contains_key(LangItem::Unit) ==> r.1 is Error,
            expected is None ==> final(self).mctx == old(self).mctx,
            expected is None && old(self).lang_items@.contains_key(LangItem::Unit) && old(self).lang_items@.contains_key(
                LangItem::UnitConstructor,
            ) ==> final(self).diagnostics == old(self).diagnostics,
    {
        let ghost s0 = *self;
        let unit_ty = self.lang_item(LangItem::Unit, range);
        let unit_const = self.lang_item(LangItem::UnitConstructor, range);
        let ghost s1 = *self;
        proof {
            lemma_keeps_refl(s0.mctx.solutions());
            lemma_prefix_refl(s0.mctx.metas());
            lemma_prefix_refl(s0.lctx@);
            lemma_prefix_refl(s0.autobound@);
            lemma_prefix_refl(s0.frames@);
            assert(s0.diagnostics@.is_prefix_of(s1.diagnostics@)) by {
                assert(s1.diagnostics@.subrange(0, s0.diagnostics@.len() as int) =~= s0.diagnostics@);
            }
            assert(elab_frame(s0, table@, s1, table@));
        }
        match expected {
            Some(e) => {
                self.expect_type(table, range, &unit_ty, e);
                proof {
                    lemma_frame_trans(s0, table@, s1, table@, *self, table@);
                }
            },
            None => {},
        }
        (unit_const, unit_ty)
    }
}

/// The text of the member of a name, `<unknown>` where it has none.
pub open spec fn member_text(name: Name) -> Seq<char> {
    segment_text(name.member)
}

/// An unqualified name that may be bound automatically.
pub open spec fn autobindable_name(name: Name) -> bool {
    name.path@.len() == 0 && match name.member {
        Some(m) => spec_is_autobindable(m@),
        None => false,
    }
}

/// `q` is `name` with its segments and member interned in `names`.
pub open spec fn qualifies(names: Seq<Seq<char>>, name: Name, q: Qualified) -> bool {
    &&& names_texts(names, q.path@, path_texts(name))
    &&& (q.member.0 as int) < names.len()
    &&& names[q.member.0 as int] == member_text(name)
}

/// `d` reports that the name written `text` does not resolve.
pub open spec fn unresolved_diag(d: Diagnostic, file: u32, range: TextRange, text: Seq<char>) -> bool {
    &&& diag_head(d, file, range, "unresolved name '"@ + text + "'"@)
    &&& d.primary.message is None
    &&& d.notes@.len() == 0
    &&& d.helps@.len() <= 1
}

/// `r` reports `name` as unresolved: the poisoned term and type, and at most
/// one new diagnostic, which says so.
pub open spec fn reported_unresolved<'a>(
    before: ElabCtx<'a>,
    after: ElabCtx<'a>,
    names: Seq<Seq<char>>,
    name: Name,
    r: (Term, Term),
) -> bool {
    &&& r.0 is Error && r.1 is Error
    &&& after.diagnostics@.len() <= before.diagnostics@.len() + 1
    &&& after.diagnostics@.len() == before.diagnostics@.len() + 1 ==> {
        &&& after.diagnostics@.drop_last() == before.diagnostics@
        &&& exists|q: Qualified| #[trigger] qualifies(names, name, q) && unresolved_diag(
            after.diagnostics@.last(),
            before.file,
            name.range,
            qualified_text(names, q),
        )
    }
    &&& after.diagnostics@.len() == before.diagnostics@.len() ==> after.diagnostics == before.diagnostics
}

/// Interns the segments and member of `name`.
pub fn qualify(table: &mut SymbolTable, name: &Name) -> (r: Option<Qualified>)
    requires
        old(table).wf(),
    ensures
        final(table).wf(),
        table_grows(old(table)@, final(table)@),
        r matches Some(q) ==> qualifies(final(table)@, *name, q) && qualified_below(q, final(table)@.len()),
        old(table)@.len() + name.path@.len() + 2 < u32::MAX ==> r is Some,
{
    let path = match name_path(table, name) {
        Some(p) => p,
        None => return None,
    };
    let ghost tp = table@;
    let text: &str = match &name.member {
        Some(m) => m.as_str(),
        None => "<unknown>",
    };
    let member = match intern(table, text) {
        Some(s) => s,
        None => return None,
    };
    let q = Qualified { path, member };
    proof {
        assert forall|k: int| 0 <= k < q.path@.len() implies (#[trigger] q.path@[k].0 as int) < table@.len()
            && table@[q.path@[k].0 as int] == path_texts(*name)[k] && q.path@[k] == sym_for(
            table@,
            path_texts(*name)[k],
        ) by {
            lemma_sym_for_stable(tp, table@, q.path@[k], path_texts(*name)[k]);
        }
    }
    Some(q)
}

/// `r` is what `name` stands for in `before`: `Type`, or the local or
/// declaration it resolves to, with its type; or the poisoned pair, after a
/// report that it does not resolve when one was made.
pub open spec fn name_resolved<'a>(
    before: ElabCtx<'a>,
    after: ElabCtx<'a>,
    names: Seq<Seq<char>>,
    name: Name,
    r: (Term, Term),
) -> bool {
    &&& after.diagnostics == before.diagnostics ==> {
        ||| name.member matches Some(m) && m@ == "Type"@ && name.path@.len() == 0 && r == (
            Term::Sort(Level::Succ(Box::new(Level::Zero))),
            sort2(),
        )
        ||| name.member matches Some(m) && exists|ps: Seq<Symbol>| #![auto] names_texts(names, ps, path_texts(name))
            && Some(r) == spec_resolve(before.lctx@, *before.namespace, before.env.signatures@, ps, sym_for(names, m@))
        ||| r.0 is Error && r.1 is Error
    }
    &&& after.diagnostics != before.diagnostics ==> reported_unresolved(before, after, names, name, r)
}

impl<'a> ElabCtx<'a> {
    /// Reports `name` as unresolved.
    fn report_unresolved(&mut self, table: &mut SymbolTable, name: &Name) -> (r: (Term, Term))
        requires
            old(table).wf(),
            ready(*old(self), old(table)@),
        ensures
            final(table).wf(),
            elab_frame(*old(self), old(table)@, *final(self), final(table)@),
            reported_unresolved(*old(self), *final(self), final(table)@, *name, r),
            final(self).lctx == old(self).lctx,
            final(self).mctx == old(self).mctx,
            final(self).gen_ == old(self).gen_,
            final(self).autobound == old(self).autobound,
            old(table)@.len() + name.path@.len() + 2 < u32::MAX ==> final(self).diagnostics@.len()
                == old(self).diagnostics@.len() + 1,
    {
        let ghost s0 = *self;
        let ghost t0 = table@;
        let q = qualify(table, name);
        proof {
            lemma_ready_grows(*self, t0, table@);
            lemma_elab_steps_refl(*self, t0);
            lemma_prefix_refl(self.lctx@);
        }
        match q {
            Some(q) => {
                let r = self.unresolved_name(table, &q, name.range);
                proof {
                    assert(qualifies(table@, *name, q));
                    assert(self.diagnostics@.subrange(0, s0.diagnostics@.len() as int) =~= s0.diagnostics@);
                    lemma_prefix_refl(s0.mctx.metas());
                    lemma_keeps_refl(s0.mctx.solutions());
                    lemma_prefix_refl(s0.autobound@);
                }
                r
            },
            None => {
                proof {
                    lemma_prefix_refl(s0.diagnostics@);
                    lemma_prefix_refl(s0.mctx.metas());
                    lemma_keeps_refl(s0.mctx.solutions());
                    lemma_prefix_refl(s0.autobound@);
                }
                self.poison()
            },
        }
    }

    /// The term and type a name stands for, or the poisoned pair after
    /// reporting that it does not resolve.
    pub fn resolve_name(&mut self, table: &mut SymbolTable, name: &Name) -> (r: (Term, Term))
        requires
            old(table).wf(),
            ready(*old(self), old(table)@),
        ensures
            final(table).wf(),
            elab_frame(*old(self), old(table)@, *final(self), final(table)@),
            final(self).lctx == old(self).lctx,
            final(self).mctx == old(self).mctx,
            final(self).gen_ == old(self).gen_,
            final(self).autobound == old(self).autobound,
            name_resolved(*old(self), *final(self), final(table)@, *name, r),
    {
        let ghost t0 = table@;
        match self.try_resolve_name(table, name) {
            Some(p) => {
                proof {
                    lemma_ready_grows(*self, t0, table@);
                    lemma_elab_steps_refl(*self, t0);
                    lemma_prefix_refl(self.lctx@);
                    lemma_elab_steps_refl(*self, table@);
                }
                p
            },
            None => {
                let ghost t1 = table@;
                proof {
                    lemma_ready_grows(*self, t0, t1);
                }
                let r = self.report_unresolved(table, name);
                proof {
                    lemma_elab_steps_refl(*old(self), t0);
                    assert(elab_steps(*old(self), t0, *old(self), t1));
                    lemma_elab_steps_trans(*old(self), t0, *old(self), t1, *self, table@);
                }
                r
            },
        }
    }

    /// Binds an unknown lower-case, unqualified name automatically; reports
    /// any other unknown name.
    pub fn autobind_or_error(&mut self, table: &mut SymbolTable, name: &Name) -> (t: Term)
        requires
            old(table).wf(),
            ready(*old(self), old(table)@),
        ensures
            final(table).wf(),
            elab_frame(*old(self), old(table)@, *final(self), final(table)@),
            final(self).mctx == old(self).mctx,
            autobindable_name(*name) ==> {
                &&& final(self).diagnostics == old(self).diagnostics
                &&& t is FVar ==> {
                    let x = t->FVar_0;
                    let sort = Term::Sort(Level::MVar(Unique(old(self).gen_.next_id())));
                    &&& final(self).gen_.next_id() == old(self).gen_.next_id() + 2
                    &&& final(self).autobound@ == old(self).autobound@.push(
                        FreeBinder { fvar: x, info: BinderInfo::Implicit, ty: sort },
                    )
                    &&& final(self).lctx@.last().name == Some(sym_for(final(table)@, member_text(*name)))
                }
                &&& !(t is FVar) ==> t is Error && final(self).autobound == old(self).autobound
                &&& (old(table)@.len() + 2 < u32::MAX && old(self).gen_.next_id() + 1 < u32::MAX) ==> t is FVar
            },
            !autobindable_name(*name) ==> {
                &&& final(self).lctx == old(self).lctx
                &&& final(self).gen_ == old(self).gen_
                &&& final(self).autobound == old(self).autobound
                &&& reported_unresolved(*old(self), *final(self), final(table)@, *name, (t, t))
            },
    {
        let ghost t0 = table@;
        let bindable = match &name.member {
            Some(m) => name.path.len() == 0 && is_autobindable(m.as_str()),
            None => false,
        };
        if bindable {
            let m = match &name.member {
                Some(m) => m,
                None => return self.error_term(),
            };
            proof {
                lemma_elab_steps_refl(*self, t0);
                lemma_prefix_refl(self.lctx@);
            }
            let s = match intern(table, m.as_str()) {
                Some(s) => s,
                None => {
                    proof {
                        lemma_frame_refl(*self, t0);
                    }
                    return self.error_term();
                },
            };
            proof {
                lemma_ready_grows(*self, t0, table@);
            }
            if self.gen_.next_id_below(u32::MAX - 1) {
                let ghost s0 = *self;
                let t = self.fresh_autobound(s, name.range);
                proof {
                    lemma_prefix_push(s0.lctx@, self.lctx@.last());
                    lemma_prefix_push(s0.autobound@, self.autobound@.last());
                    lemma_prefix_refl(s0.mctx.metas());
                    lemma_keeps_refl(s0.mctx.solutions());
                    lemma_prefix_refl(s0.diagnostics@);
                    assert forall|k: int| 0 <= k < self.lctx@.len() implies ((#[trigger] self.lctx@[k]).name matches Some(n)
                        ==> (n.0 as nat) < table@.len()) by {
                        if k < s0.lctx@.len() {
                            assert(self.lctx@[k] == s0.lctx@[k]);
                        }
                    }
                }
                t
            } else {
                proof {
                    lemma_frame_refl(*self, table@);
                    assert(table_grows(t0, table@));
                }
                self.error_term()
            }
        } else {
            let r = self.report_unresolved(table, name);
            r.0
        }
    }
}

/// Which term a closed binder makes: a function or a function type.
#[derive(Debug, Clone, Copy, PartialEq, Eq, Structural)]
pub enum BinderForm {
    Lam,
    Pi,
}

/// The term of form `form` binding a variable of type `ty` in `body`.
pub open spec fn wrap(form: BinderForm, info: BinderInfo, ty: Term, body: Term) -> Term {
    match form {
        BinderForm::Lam => Term::Lam(info, Box::new(ty), Box::new(body)),
        BinderForm::Pi => Term::Pi(info, Box::new(ty), Box::new(body)),
    }
}

/// `body` closed over `bs`, the last binder innermost; `None` where a step
/// would leave machine integers.
pub open spec fn spec_close(bs: Seq<FreeBinder>, body: Term, form: BinderForm) -> Option<Term>
    decreases bs.len(),
{
    if bs.len() == 0 {
        Some(body)
    } else if abstract_fits(body, 0) {
        let b = bs.last();
        spec_close(bs.drop_last(), wrap(form, b.info, b.ty, spec_abstract_at(body, b.fvar, 0)), form)
    } else {
        None
    }
}

/// How a binder written in the source passes its argument.
pub open spec fn spec_binder_info(info: crate::ast::BinderInfo) -> BinderInfo {
    match info {
        crate::ast::BinderInfo::Implicit => BinderInfo::Implicit,
        crate::ast::BinderInfo::InstanceImplicit => BinderInfo::InstanceImplicit,
        crate::ast::BinderInfo::Explicit => BinderInfo::Explicit,
    }
}

/// The symbol of an optional name in `names`.
pub open spec fn opt_sym(names: Seq<Seq<char>>, n: Option<String>) -> Option<Symbol> {
    match n {
        Some(t) => Some(sym_for(names, t@)),
        None => None,
    }
}

/// Closes `body` over `binders`, the last innermost, each as a function or a
/// function type; the poisoned term where the term grows too deep.
pub fn close_binders(binders: &[FreeBinder], body: Term, form: BinderForm) -> (r: Term)
    ensures
        match spec_close(binders@, body, form) {
            Some(t) => r == t,
            None => r is Error,
        },
{
    let mut term = body;
    let mut i: usize = binders.len();
    proof {
        assert(binders@.take(i as int) =~= binders@);
    }
    while i > 0
        invariant
            i <= binders@.len(),
            spec_close(binders@, body, form) == spec_close(binders@.take(i as int), term, form),
        decreases i,
    {
        if !crate::subst::abstract_fits_exec(&term, 0) {
            let token = crate::term::ErrorToken::new();
            return Term::Error(token);
        }
        let b = &binders[i - 1];
        let closed = crate::subst::abstract_fvar(&term, b.fvar);
        let next = match form {
            BinderForm::Lam => Term::Lam(b.info, Box::new(b.ty.copy()), Box::new(closed)),
            BinderForm::Pi => Term::Pi(b.info, Box::new(b.ty.copy()), Box::new(closed)),
        };
        proof {
            assert(binders@.take(i as int).drop_last() =~= binders@.take(i - 1));
            assert(binders@.take(i as int).last() == binders@[i - 1]);
        }
        term = next;
        i = i - 1;
    }
    term
}

impl<'a> ElabCtx<'a> {
    /// Closes `body` over the auto-bound locals as function types, and
    /// forgets them.
    pub fn abstract_autobound_pi(&mut self, body: Term) -> (r: Term)
        ensures
            match spec_close(old(self).autobound@, body, BinderForm::Pi) {
                Some(t) => r == t,
                None => r is Error,
            },
            final(self).autobound@.len() == 0,
            final(self).env == old(self).env,
            final(self).lang_items == old(self).lang_items,
            final(self).namespace == old(self).namespace,
            final(self).fuel == old(self).fuel,
            final(self).lctx == old(self).lctx,
            final(self).mctx == old(self).mctx,
            final(self).gen_ == old(self).gen_,
            final(self).diagnostics == old(self).diagnostics,
            final(self).current_decl == old(self).current_decl,
            final(self).file == old(self).file,
            final(self).frames == old(self).frames,
    {
        let mut autobound: Vec<FreeBinder> = Vec::new();
        std::mem::swap(&mut autobound, &mut self.autobound);
        close_binders(autobound.as_slice(), body, BinderForm::Pi)
    }

    /// Closes `body` over the auto-bound locals as functions, and forgets them.
    pub fn abstract_autobound_lam(&mut self, body: Term) -> (r: Term)
        ensures
            match spec_close(old(self).autobound@, body, BinderForm::Lam) {
                Some(t) => r == t,
                None => r is Error,
            },
            final(self).autobound@.len() == 0,
            final(self).env == old(self).env,
            final(self).lang_items == old(self).lang_items,
            final(self).namespace == old(self).namespace,
            final(self).fuel == old(self).fuel,
            final(self).lctx == old(self).lctx,
            final(self).mctx == old(self).mctx,
            final(self).gen_ == old(self).gen_,
            final(self).diagnostics == old(self).diagnostics,
            final(self).current_decl == old(self).current_decl,
            final(self).file == old(self).file,
            final(self).frames == old(self).frames,
    {
        let mut autobound: Vec<FreeBinder> = Vec::new();
        std::mem::swap(&mut autobound, &mut self.autobound);
        close_binders(autobound.as_slice(), body, BinderForm::Lam)
    }

    /// Closes `body` over `binders` as functions.
    pub fn abstract_binders(&self, binders: &[FreeBinder], body: Term) -> (r: Term)
        ensures
            match spec_close(binders@, body, BinderForm::Lam) {
                Some(t) => r == t,
                None => r is Error,
            },
    {
        close_binders(binders, body, BinderForm::Lam)
    }
}

pub proof fn lemma_frame_table<'a>(cx: ElabCtx<'a>, t0: Seq<Seq<char>>, t1: Seq<Seq<char>>)
    requires
        ready(cx, t0),
        table_grows(t0, t1),
    ensures
        elab_frame(cx, t0, cx, t1),
        ready(cx, t1),
{
    lemma_ready_grows(cx, t0, t1);
    lemma_elab_steps_refl(cx, t0);
    lemma_prefix_refl(cx.lctx@);
}

/// From `before` to `after` elaboration reported nothing, and ran out of
/// neither symbols nor fresh names.
pub open spec fn quiet<'a>(before: ElabCtx<'a>, after: ElabCtx<'a>, names: Seq<Seq<char>>) -> bool {
    &&& after.diagnostics@.len() == before.diagnostics@.len()
    &&& has_room(names)
    &&& after.gen_.next_id() < u32::MAX
}

/// What a name in a type may stand for once lowered: a local, bound or
/// free, a declaration, a universe, or the poisoned term.
pub open spec fn name_shape(t: Term) -> bool {
    t is FVar || t is BVar || t is Const || t is Sort || t is Error
}

/// `t` is what `lower_type` makes of `ty`, but for what its names resolve
/// to: an application of the lowered parts, an arrow a function type with
/// an explicit binder, a parenthesised type the type inside, a binder a
/// function type over its lowered type, and a missing part poisoned.
pub open spec fn lowered_shape(ty: Type, t: Term) -> bool {
    lowered_form(false, ty, t)
}

/// `t` is what `lower_type` makes of `ty`, as `lowered_shape` says; where
/// `strict`, a function type is never poisoned as a whole.
pub open spec fn lowered_form(strict: bool, ty: Type, t: Term) -> bool
    decreases ty,
{
    match ty {
        Type::Pi { binder: Some(b), ty: Some(c), .. } => (!strict && t is Error) || (t matches Term::Pi(i, a, body) && i
            == spec_binder_info(b.info) && (match b.ty {
            None => *a is Error,
            Some(bt) => lowered_form(strict, *bt, *a),
        }) && lowered_form(strict, *c, *body)),
        Type::Pi { .. } => t is Error,
        Type::Name(n) => if n.member matches Some(m) && m@ == "Type"@ && n.path@.len() == 0 {
            t == Term::Sort(Level::Succ(Box::new(Level::Zero)))
        } else {
            name_shape(t)
        },
        Type::App { func, arg, .. } => t matches Term::App(f, a) && (match func {
            None => *f is Error,
            Some(x) => lowered_form(strict, *x, *f),
        }) && (match arg {
            None => *a is Error,
            Some(x) => lowered_form(strict, *x, *a),
        }),
        Type::Arrow { dom, cod, .. } => t matches Term::Pi(i, d, c) && i == BinderInfo::Explicit && (match dom {
            None => *d is Error,
            Some(x) => lowered_form(strict, *x, *d),
        }) && (match cod {
            None => *c is Error,
            Some(x) => lowered_form(strict, *x, *c),
        }),
        Type::Paren { inner, .. } => match inner {
            None => t is Error,
            Some(x) => lowered_form(strict, *x, t),
        },
    }
}

/// Abstracting a local keeps the shape of a lowered type.
pub proof fn lemma_abstract_keeps_shape(ty: Type, t: Term, x: Unique, k: nat)
    requires
        lowered_shape(ty, t),
    ensures
        lowered_shape(ty, spec_abstract_at(t, x, k)),
{
    lemma_abstract_keeps_form(false, ty, t, x, k);
}

/// Abstracting a local keeps the shape of a lowered type, strict or not.
pub proof fn lemma_abstract_keeps_form(strict: bool, ty: Type, t: Term, x: Unique, k: nat)
    requires
        lowered_form(strict, ty, t),
    ensures
        lowered_form(strict, ty, spec_abstract_at(t, x, k)),
    decreases ty,
{
    match ty {
        Type::Pi { binder: Some(b), ty: Some(c), .. } => {
            if let Term::Pi(i, a, body) = t {
                let a2 = spec_abstract_at(*a, x, k);
                let body2 = spec_abstract_at(*body, x, k + 1);
                assert(spec_abstract_at(t, x, k) == Term::Pi(i, Box::new(a2), Box::new(body2)));
                match b.ty {
                    Some(bt) => lemma_abstract_keeps_form(strict, *bt, *a, x, k),
                    None => assert(a2 is Error),
                }
                lemma_abstract_keeps_form(strict, *c, *body, x, k + 1);
            } else {
                assert(spec_abstract_at(t, x, k) is Error);
            }
        },
        Type::App { func, arg, .. } => {
            if let Term::App(f, a) = t {
                match func {
                    Some(y) => lemma_abstract_keeps_form(strict, *y, *f, x, k),
                    None => assert(spec_abstract_at(*f, x, k) is Error),
                }
                match arg {
                    Some(y) => lemma_abstract_keeps_form(strict, *y, *a, x, k),
                    None => assert(spec_abstract_at(*a, x, k) is Error),
                }
            }
        },
        Type::Arrow { dom, cod, .. } => {
            if let Term::Pi(i, d, c) = t {
                match dom {
                    Some(y) => lemma_abstract_keeps_form(strict, *y, *d, x, k),
                    None => assert(spec_abstract_at(*d, x, k) is Error),
                }
                match cod {
                    Some(y) => lemma_abstract_keeps_form(strict, *y, *c, x, k + 1),
                    None => assert(spec_abstract_at(*c, x, k + 1) is Error),
                }
            }
        },
        Type::Paren { inner, .. } => {
            match inner {
                Some(y) => lemma_abstract_keeps_form(strict, *y, t, x, k),
                None => assert(spec_abstract_at(t, x, k) is Error),
            }
        },
        Type::Name(n) => {
            let r = spec_abstract_at(t, x, k);
            match t {
                Term::FVar(u) => assert(r is FVar || r is BVar),
                Term::BVar(u) => assert(r is BVar),
                Term::Const(c) => assert(r == t),
                Term::Sort(l) => assert(r == t),
                Term::Error(e) => assert(r == t),
                _ => {},
            }
        },
        Type::Pi { .. } => {
            assert(spec_abstract_at(t, x, k) == t);
        },
    }
}

/// The strict shape of a lowered type is one of its shapes.
pub proof fn lemma_lowered_weaken(ty: Type, t: Term)
    requires
        lowered_form(true, ty, t),
    ensures
        lowered_shape(ty, t),
    decreases ty,
{
    match ty {
        Type::Pi { binder: Some(b), ty: Some(c), .. } => {
            if let Term::Pi(i, a, body) = t {
                if let Some(bt) = b.ty {
                    lemma_lowered_weaken(*bt, *a);
                }
                lemma_lowered_weaken(*c, *body);
            }
        },
        Type::App { func, arg, .. } => {
            if let Term::App(f, a) = t {
                if let Some(y) = func {
                    lemma_lowered_weaken(*y, *f);
                }
                if let Some(y) = arg {
                    lemma_lowered_weaken(*y, *a);
                }
            }
        },
        Type::Arrow { dom, cod, .. } => {
            if let Term::Pi(i, d, c) = t {
                if let Some(y) = dom {
                    lemma_lowered_weaken(*y, *d);
                }
                if let Some(y) = cod {
                    lemma_lowered_weaken(*y, *c);
                }
            }
        },
        Type::Paren { inner: Some(y), .. } => lemma_lowered_weaken(*y, t),
        _ => {},
    }
}

/// The type of binder `b` as lowered: its written type, or the poisoned
/// term where it has none.
pub open spec fn binder_ty_shape(b: Binder, a: Term) -> bool {
    match b.ty {
        None => a is Error,
        Some(t) => lowered_shape(*t, a),
    }
}

/// The term under the binders `bs` from the `j`-th on, where `t` binds them
/// in order, as functions or function types of form `form`, each with its
/// written passing and its lowered type; `None` where it does not.
pub open spec fn tele(bs: Seq<Binder>, j: nat, form: BinderForm, t: Term) -> Option<Term>
    decreases bs.len() - j,
{
    if j >= bs.len() {
        Some(t)
    } else {
        match (form, t) {
            (BinderForm::Pi, Term::Pi(i, a, b)) | (BinderForm::Lam, Term::Lam(i, a, b)) => if i
                == spec_binder_info(bs[j as int].info) && binder_ty_shape(bs[j as int], *a) {
                tele(bs, j + 1, form, *b)
            } else {
                None
            },
            _ => None,
        }
    }
}

/// The term under `n` implicit binders of universes, of form `form`.
pub open spec fn implicit_tele(n: nat, form: BinderForm, t: Term) -> Option<Term>
    decreases n,
{
    if n == 0 {
        Some(t)
    } else {
        match (form, t) {
            (BinderForm::Pi, Term::Pi(i, a, b)) | (BinderForm::Lam, Term::Lam(i, a, b)) => if i
                == BinderInfo::Implicit && *a is Sort {
                implicit_tele((n - 1) as nat, form, *b)
            } else {
                None
            },
            _ => None,
        }
    }
}

/// Abstracting a local in a telescope abstracts it in the binder types, and
/// in the term under them one level deeper for each binder.
pub proof fn lemma_tele_abstract(bs: Seq<Binder>, j: nat, form: BinderForm, t: Term, x: Unique, k: nat)
    requires
        j <= bs.len(),
        tele(bs, j, form, t) is Some,
    ensures
        tele(bs, j, form, spec_abstract_at(t, x, k)) == Some(
            spec_abstract_at(tele(bs, j, form, t).unwrap(), x, k + (bs.len() - j) as nat),
        ),
    decreases bs.len() - j,
{
    if j < bs.len() {
        match (form, t) {
            (BinderForm::Pi, Term::Pi(i, a, b)) | (BinderForm::Lam, Term::Lam(i, a, b)) => {
                match bs[j as int].ty {
                    None => assert(spec_abstract_at(*a, x, k) is Error),
                    Some(bt) => lemma_abstract_keeps_shape(*bt, *a, x, k),
                }
                lemma_tele_abstract(bs, j + 1, form, *b, x, k + 1);
                assert(k + 1 + (bs.len() - (j + 1)) as nat == k + (bs.len() - j) as nat);
            },
            _ => {},
        }
    }
}

/// Abstracting a local under implicit binders of universes.
pub proof fn lemma_implicit_tele_abstract(n: nat, form: BinderForm, t: Term, x: Unique, k: nat)
    requires
        implicit_tele(n, form, t) is Some,
    ensures
        implicit_tele(n, form, spec_abstract_at(t, x, k)) == Some(
            spec_abstract_at(implicit_tele(n, form, t).unwrap(), x, k + n),
        ),
    decreases n,
{
    if n > 0 {
        match (form, t) {
            (BinderForm::Pi, Term::Pi(i, a, b)) | (BinderForm::Lam, Term::Lam(i, a, b)) => {
                assert(spec_abstract_at(*a, x, k) == *a);
                lemma_implicit_tele_abstract((n - 1) as nat, form, *b, x, k + 1);
                assert(k + 1 + (n - 1) as nat == k + n);
            },
            _ => {},
        }
    }
}

/// Closing a term of the shape `p` over binders elaborated from `bs`, the
/// last first, gives their telescope over a term of that shape, if `p`
/// survives abstraction.
pub proof fn lemma_close_tele(
    bs: Seq<Binder>,
    fbs: Seq<FreeBinder>,
    j: nat,
    form: BinderForm,
    c: Term,
    p: spec_fn(Term) -> bool,
)
    requires
        fbs.len() == bs.len(),
        j <= bs.len(),
        forall|m: int| 0 <= m < bs.len() ==> (#[trigger] fbs[m]).info == spec_binder_info(bs[m].info)
            && binder_ty_shape(bs[m], fbs[m].ty),
        tele(bs, j, form, c) matches Some(body) && p(body),
        forall|t: Term, y: Unique, d: nat| p(t) ==> #[trigger] p(spec_abstract_at(t, y, d)),
    ensures
        spec_close(fbs.take(j as int), c, form) matches Some(r) ==> tele(bs, 0, form, r) matches Some(body)
            && p(body),
    decreases j,
{
    if j == 0 {
        assert(fbs.take(0) =~= Seq::<FreeBinder>::empty());
    } else {
        let s = fbs.take(j as int);
        assert(s.drop_last() =~= fbs.take(j - 1));
        assert(s.last() == fbs[j - 1]);
        if abstract_fits(c, 0) {
            let fb = fbs[j - 1];
            let body = tele(bs, j, form, c).unwrap();
            lemma_tele_abstract(bs, j, form, c, fb.fvar, 0);
            let c2 = wrap(form, fb.info, fb.ty, spec_abstract_at(c, fb.fvar, 0));
            assert(tele(bs, (j - 1) as nat, form, c2) == tele(bs, j, form, spec_abstract_at(c, fb.fvar, 0)));
            assert(p(spec_abstract_at(body, fb.fvar, 0 + (bs.len() - j) as nat)));
            lemma_close_tele(bs, fbs, (j - 1) as nat, form, c2, p);
        }
    }
}

/// Closing a term of the shape `p` over auto-bound locals gives implicit
/// binders of universes over a term of that shape, if `p` survives
/// Closing over at least one binder gives a binder, never the poisoned term.
pub proof fn lemma_close_wraps(bs: Seq<FreeBinder>, body: Term, form: BinderForm)
    requires
        bs.len() > 0,
        spec_close(bs, body, form) is Some,
    ensures
        !(spec_close(bs, body, form).unwrap() is Error),
    decreases bs.len(),
{
    let b = bs.last();
    let w = wrap(form, b.info, b.ty, spec_abstract_at(body, b.fvar, 0));
    assert(abstract_fits(body, 0));
    assert(spec_close(bs, body, form) == spec_close(bs.drop_last(), w, form));
    if bs.len() > 1 {
        lemma_close_wraps(bs.drop_last(), w, form);
    } else {
        assert(bs.drop_last().len() == 0);
        assert(spec_close(bs.drop_last(), w, form) == Some(w));
        assert(w is Lam || w is Pi);
    }
}

/// Whether `t` is the poisoned term.
pub fn is_poisoned(t: &Term) -> (r: bool)
    ensures
        r == (*t is Error),
{
    match t {
        Term::Error(_) => true,
        _ => false,
    }
}

/// abstraction.
pub proof fn lemma_close_implicit(ab: Seq<FreeBinder>, j: nat, form: BinderForm, c: Term, p: spec_fn(Term) -> bool)
    requires
        j <= ab.len(),
        autobound_implicit(ab),
        implicit_tele((ab.len() - j) as nat, form, c) matches Some(body) && p(body),
        forall|t: Term, y: Unique, d: nat| p(t) ==> #[trigger] p(spec_abstract_at(t, y, d)),
    ensures
        spec_close(ab.take(j as int), c, form) matches Some(r) ==> implicit_tele(ab.len(), form, r) matches Some(
            body,
        ) && p(body),
    decreases j,
{
    if j == 0 {
        assert(ab.take(0) =~= Seq::<FreeBinder>::empty());
    } else {
        let s = ab.take(j as int);
        assert(s.drop_last() =~= ab.take(j - 1));
        assert(s.last() == ab[j - 1]);
        if abstract_fits(c, 0) {
            let fb = ab[j - 1];
            let n = (ab.len() - j) as nat;
            let body = implicit_tele(n, form, c).unwrap();
            lemma_implicit_tele_abstract(n, form, c, fb.fvar, 0);
            let c2 = wrap(form, fb.info, fb.ty, spec_abstract_at(c, fb.fvar, 0));
            assert((ab.len() - (j - 1)) as nat == n + 1);
            assert(implicit_tele(n + 1, form, c2) == implicit_tele(n, form, spec_abstract_at(c, fb.fvar, 0)));
            assert(p(spec_abstract_at(body, fb.fvar, 0 + n)));
            lemma_close_implicit(ab, (j - 1) as nat, form, c2, p);
        }
    }
}

/// A lowered type has no hole.
pub proof fn lemma_lowered_no_mvar(ty: Type, t: Term, m: Unique)
    requires
        lowered_shape(ty, t),
    ensures
        !has_mvar(t, m),
    decreases ty,
{
    match ty {
        Type::Pi { binder: Some(b), ty: Some(c), .. } => {
            if let Term::Pi(i, a, body) = t {
                match b.ty {
                    Some(bt) => lemma_lowered_no_mvar(*bt, *a, m),
                    None => assert(!has_mvar(*a, m)),
                }
                lemma_lowered_no_mvar(*c, *body, m);
            }
        },
        Type::App { func, arg, .. } => {
            if let Term::App(f, a) = t {
                match func {
                    Some(y) => lemma_lowered_no_mvar(*y, *f, m),
                    None => assert(!has_mvar(*f, m)),
                }
                match arg {
                    Some(y) => lemma_lowered_no_mvar(*y, *a, m),
                    None => assert(!has_mvar(*a, m)),
                }
            }
        },
        Type::Arrow { dom, cod, .. } => {
            if let Term::Pi(i, d, c) = t {
                match dom {
                    Some(y) => lemma_lowered_no_mvar(*y, *d, m),
                    None => assert(!has_mvar(*d, m)),
                }
                match cod {
                    Some(y) => lemma_lowered_no_mvar(*y, *c, m),
                    None => assert(!has_mvar(*c, m)),
                }
            }
        },
        Type::Paren { inner, .. } => {
            if let Some(y) = inner {
                lemma_lowered_no_mvar(*y, t, m);
            }
        },
        _ => {},
    }
}

/// A telescope of lowered binder types over a term with no hole has none.
pub proof fn lemma_tele_no_mvar(bs: Seq<Binder>, j: nat, form: BinderForm, t: Term, m: Unique)
    requires
        tele(bs, j, form, t) matches Some(b) && !has_mvar(b, m),
    ensures
        !has_mvar(t, m),
    decreases bs.len() - j,
{
    if j < bs.len() {
        match (form, t) {
            (BinderForm::Pi, Term::Pi(i, a, b)) | (BinderForm::Lam, Term::Lam(i, a, b)) => {
                match bs[j as int].ty {
                    Some(bt) => lemma_lowered_no_mvar(*bt, *a, m),
                    None => assert(!has_mvar(*a, m)),
                }
                lemma_tele_no_mvar(bs, j + 1, form, *b, m);
            },
            _ => {},
        }
    }
}

impl<'a> ElabCtx<'a> {
    /// Elaborates a binder: its type, then a fresh local of that type in
    /// scope. `None` where names or symbols have run out.
    pub fn elaborate_binder(&mut self, table: &mut SymbolTable, b: &Binder) -> (r: Option<FreeBinder>)
        requires
            old(table).wf(),
            ready(*old(self), old(table)@),
        ensures
            final(table).wf(),
            elab_frame(*old(self), old(table)@, *final(self), final(table)@),
            r matches Some(fb) ==> {
                &&& fb.info == spec_binder_info(b.info)
                &&& final(self).lctx@.len() > 0
                &&& final(self).lctx@.last() == (LocalBinder {
                    unique: fb.fvar,
                    name: opt_sym(final(table)@, b.name),
                    ty: fb.ty,
                    info: fb.info,
                    value: None,
                    origin: b.range,
                    parent: None,
                })
                &&& fb.fvar.0 + 1 == final(self).gen_.next_id()
                &&& b.ty is None ==> fb.ty is Error
                &&& b.ty matches Some(t) ==> lowered_shape(*t, fb.ty)
            },
            b.name is Some && !has_room(old(table)@) ==> r is None && final(table)@ == old(table)@,
            r is None ==> (b.name is Some && !has_room(final(table)@)) || final(self).gen_.next_id() == u32::MAX,
            quiet(*old(self), *final(self), final(table)@) ==> (r matches Some(fb) ==> (b.ty matches Some(t)
                ==> lowered_form(true, *t, fb.ty))),
        decreases b, 0nat,
    {
        let info = match b.info {
            crate::ast::BinderInfo::Implicit => BinderInfo::Implicit,
            crate::ast::BinderInfo::InstanceImplicit => BinderInfo::InstanceImplicit,
            crate::ast::BinderInfo::Explicit => BinderInfo::Explicit,
        };
        let ghost t0 = table@;
        let name = match &b.name {
            Some(n) => match intern(table, n.as_str()) {
                Some(s) => Some(s),
                None => {
                    proof {
                        lemma_frame_table(*self, t0, table@);
                    }
                    return None;
                },
            },
            None => None,
        };
        proof {
            lemma_frame_table(*self, t0, table@);
        }
        let ghost s1 = *self;
        let ghost t1 = table@;
        let ty = match &b.ty {
            Some(t) => self.lower_type(table, t),
            None => {
                proof {
                    lemma_frame_refl(*self, table@);
                }
                self.poison().1
            },
        };
        proof {
            lemma_frame_trans(*old(self), t0, s1, t1, *self, table@);
            if b.name is Some {
                lemma_sym_for_stable(t1, table@, name.unwrap(), b.name.unwrap()@);
            }
        }
        if !self.gen_.has_next() {
            return None;
        }
        let ghost s2 = *self;
        let ty2 = ty.copy();
        let unique = self.fresh_fvar(name, ty, info, b.range, None);
        proof {
            lemma_prefix_push(s2.lctx@, self.lctx@.last());
            lemma_frame_refl(s2, table@);
            assert forall|k: int| 0 <= k < self.lctx@.len() implies ((#[trigger] self.lctx@[k]).name matches Some(n)
                ==> (n.0 as nat) < table@.len()) by {
                if k < s2.lctx@.len() {
                    assert(self.lctx@[k] == s2.lctx@[k]);
                }
            }
            assert(elab_frame(s2, table@, *self, table@));
            lemma_frame_trans(*old(self), t0, s2, table@, *self, table@);
        }
        Some(FreeBinder::new(unique, info, ty2))
    }

    /// Elaborates a type.
    pub fn lower_type(&mut self, table: &mut SymbolTable, ty: &Type) -> (r: Term)
        requires
            old(table).wf(),
            ready(*old(self), old(table)@),
        ensures
            final(table).wf(),
            elab_frame(*old(self), old(table)@, *final(self), final(table)@),
            lowered_shape(*ty, r),
            quiet(*old(self), *final(self), final(table)@) ==> lowered_form(true, *ty, r),
            match *ty {
                Type::App { .. } => r is App,
                Type::Arrow { .. } => r matches Term::Pi(i, _, _) && i == BinderInfo::Explicit,
                Type::Paren { inner: None, .. } => r is Error,
                Type::Pi { binder: None, .. } => r is Error,
                Type::Pi { ty: None, .. } => r is Error,
                Type::Pi { binder: Some(b), ty: Some(_), .. } => r is Error || (r matches Term::Pi(i, _, _)
                    && i == spec_binder_info(b.info)),
                Type::Name(n) => (n.member matches Some(m) && m@ == "Type"@ && n.path@.len() == 0) ==> r
                    == Term::Sort(Level::Succ(Box::new(Level::Zero))),
                _ => true,
            },
        decreases ty, 2nat,
    {
        let ghost t0 = table@;
        match ty {
            Type::Pi { .. } => self.lower_pi_type(table, ty),
            Type::Name(name) => {
                match self.try_resolve_name(table, name) {
                    Some((term, _)) => {
                        proof {
                            lemma_frame_table(*self, t0, table@);
                        }
                        term
                    },
                    None => {
                        proof {
                            lemma_frame_table(*self, t0, table@);
                        }
                        let ghost t1 = table@;
                        let r = self.autobind_or_error(table, name);
                        proof {
                            lemma_frame_trans(*old(self), t0, *old(self), t1, *self, table@);
                        }
                        r
                    },
                }
            },
            Type::App { func, arg, .. } => {
                let f = match func {
                    Some(f) => self.lower_type(table, f),
                    None => {
                        proof {
                            lemma_frame_refl(*self, t0);
                        }
                        self.poison().0
                    },
                };
                let ghost s1 = *self;
                let ghost t1 = table@;
                let a = match arg {
                    Some(a) => self.lower_type(table, a),
                    None => {
                        proof {
                            lemma_frame_refl(*self, t1);
                        }
                        self.poison().0
                    },
                };
                proof {
                    lemma_frame_trans(*old(self), t0, s1, t1, *self, table@);
                }
                Term::App(Box::new(f), Box::new(a))
            },
            Type::Arrow { dom, cod, .. } => {
                let d = match dom {
                    Some(t) => self.lower_type(table, t),
                    None => {
                        proof {
                            lemma_frame_refl(*self, t0);
                        }
                        self.poison().0
                    },
                };
                let ghost s1 = *self;
                let ghost t1 = table@;
                let c = match cod {
                    Some(t) => self.lower_type(table, t),
                    None => {
                        proof {
                            lemma_frame_refl(*self, t1);
                        }
                        self.poison().0
                    },
                };
                proof {
                    lemma_frame_trans(*old(self), t0, s1, t1, *self, table@);
                }
                Term::Pi(BinderInfo::Explicit, Box::new(d), Box::new(c))
            },
            Type::Paren { inner, .. } => match inner {
                Some(t) => self.lower_type(table, t),
                None => {
                    proof {
                        lemma_frame_refl(*self, t0);
                    }
                    self.poison().0
                },
            },
        }
    }

    /// Elaborates a function type `(x : A) -> B`: the binder is brought into
    /// scope for the codomain and closed over it.
    pub fn lower_pi_type(&mut self, table: &mut SymbolTable, pi: &Type) -> (r: Term)
        requires
            old(table).wf(),
            ready(*old(self), old(table)@),
            pi is Pi,
        ensures
            final(table).wf(),
            elab_frame(*old(self), old(table)@, *final(self), final(table)@),
            lowered_shape(*pi, r),
            quiet(*old(self), *final(self), final(table)@) ==> lowered_form(true, *pi, r),
            match *pi {
                Type::Pi { binder: Some(b), ty: Some(_), .. } => r is Error || (r matches Term::Pi(i, _, _)
                    && i == spec_binder_info(b.info)),
                _ => r is Error,
            },
        decreases pi, 1nat,
    {
        let ghost t0 = table@;
        let (binder, cod) = match pi {
            Type::Pi { binder: Some(b), ty: Some(c), .. } => (b, c),
            _ => {
                proof {
                    lemma_frame_refl(*self, t0);
                }
                return self.poison().1;
            },
        };
        let fb = match self.elaborate_binder(table, binder) {
            Some(fb) => fb,
            None => return self.poison().1,
        };
        let ghost s1 = *self;
        let ghost t1 = table@;
        let saved = self.lctx.copy();
        let body = self.lower_type(table, cod);
        let ghost s2 = *self;
        let ghost t2 = table@;
        let fits = crate::subst::abstract_fits_exec(&body, 0);
        let mut binders: Vec<FreeBinder> = Vec::new();
        binders.push(fb);
        let result = close_binders(binders.as_slice(), body, BinderForm::Pi);
        self.lctx = saved;
        let ghost s3 = *self;
        if !fits {
            let d = self.mk_error(pi.range(), "type nested too deeply");
            let _ = self.error(d);
            proof {
                assert(self.diagnostics@.subrange(0, s3.diagnostics@.len() as int) =~= s3.diagnostics@);
                lemma_prefix_trans(old(self).diagnostics@, s3.diagnostics@, self.diagnostics@);
            }
        }
        proof {
            lemma_frame_trans(*old(self), t0, s1, t1, s2, t2);
            lemma_ready_grows(s1, t1, t2);
            lemma_elab_steps_refl(s1, t2);
            assert(elab_steps(*old(self), t0, *self, t2));
            lemma_prefix_trans(old(self).lctx@, s1.lctx@, self.lctx@);
            lemma_prefix_refl(self.lctx@);
            assert(binders@.drop_last() =~= Seq::<FreeBinder>::empty());
            if abstract_fits(body, 0) {
                reveal_with_fuel(spec_close, 2);
                assert(binders@.last() == fb);
                assert(spec_close(binders@, body, BinderForm::Pi) == Some(wrap(BinderForm::Pi, fb.info, fb.ty, spec_abstract_at(body, fb.fvar, 0))));
                lemma_abstract_keeps_shape(**cod, body, fb.fvar, 0);
                if quiet(s1, s2, t2) {
                    lemma_abstract_keeps_form(true, **cod, body, fb.fvar, 0);
                }
            }
        }
        result
    }
}

/// Locals shadow declarations: where a local named `m` is in scope, a name
/// with member `m` resolves to the innermost such local and its type,
/// whatever the namespace declares, at any path.
pub proof fn lemma_locals_shadow_declarations(
    lctx: Seq<LocalBinder>,
    ns: crate::namespace::Namespace,
    sigs: Seq<Term>,
    ps: Seq<Symbol>,
    m: Symbol,
    k: int,
)
    requires
        0 <= k < lctx.len(),
        lctx[k].name == Some(m),
        forall|j: int| k < j < lctx.len() ==> #[trigger] lctx[j].name != Some(m),
    ensures
        spec_resolve(lctx, ns, sigs, ps, m) == Some((Term::FVar(lctx[k].unique), lctx[k].ty)),
{
    lemma_last_named_innermost(lctx, m, k);
}

/// The last binder named `m` is found by `last_named`.
proof fn lemma_last_named_innermost(lctx: Seq<LocalBinder>, m: Symbol, k: int)
    requires
        0 <= k < lctx.len(),
        lctx[k].name == Some(m),
        forall|j: int| k < j < lctx.len() ==> #[trigger] lctx[j].name != Some(m),
    ensures
        last_named(lctx, m) == Some(k),
    decreases lctx.len(),
{
    if k < lctx.len() - 1 {
        assert(lctx[lctx.len() - 1].name != Some(m));
        assert(lctx.drop_last()[k] == lctx[k]);
        assert forall|j: int| k < j < lctx.drop_last().len() implies #[trigger] lctx.drop_last()[j].name != Some(m) by {
            assert(lctx.drop_last()[j] == lctx[j]);
            assert(lctx[j].name != Some(m));
        }
        lemma_last_named_innermost(lctx.drop_last(), m, k);
    }
}

/// Where no local is named `m`, a name resolves to the declaration the
/// namespace holds for it at the path, with its signature.
pub proof fn lemma_declarations_without_local(
    lctx: Seq<LocalBinder>,
    ns: crate::namespace::Namespace,
    sigs: Seq<Term>,
    ps: Seq<Symbol>,
    m: Symbol,
)
    requires
        forall|j: int| 0 <= j < lctx.len() ==> #[trigger] lctx[j].name != Some(m),
    ensures
        spec_resolve(lctx, ns, sigs, ps, m) == match spec_walk(ns, ps) {
            Some(n) => match decl_lookup(n.decls@, m) {
                Some(item) => match spec_signature(sigs, item) {
                    Some(ty) => Some((Term::Const(item), ty)),
                    None => None,
                },
                None => None,
            },
            None => None,
        },
{
    lemma_last_named_facts(lctx, m);
}

} // verus!
