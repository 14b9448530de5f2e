//! Names that do not resolve: how they are written back in a diagnostic, and
//! the suggestion that comes with it.

use vstd::prelude::*;
use crate::ctx::ElabCtx;
use crate::diagnostics::TextRange;
use crate::ids::{Symbol, SymbolTable};
use crate::local::{last_named, lemma_last_named_facts, LocalBinder};
use crate::namespace::{
    best_match,
    decl_lookup,
    decl_name_seq,
    is_suggestion,
    names_below,
    qualified_below,
    spec_best_match,
    spec_similar,
    spec_walk,
    sym_text,
    Namespace,
    Qualified,
};
use crate::report::diag_head;
use crate::term::Term;
use crate::text::{push_str, string_from_chars};

verus! {

/// The path of a name as written: each segment followed by `::`.
pub open spec fn path_prefix_text(names: Seq<Seq<char>>, p: Seq<Symbol>) -> Seq<char>
    decreases p.len(),
{
    if p.len() == 0 {
        Seq::empty()
    } else {
        path_prefix_text(names, p.drop_last()) + sym_text(names, p.last()) + "::"@
    }
}

/// A qualified name as written: `a::b::member`.
pub open spec fn qualified_text(names: Seq<Seq<char>>, q: Qualified) -> Seq<char> {
    path_prefix_text(names, q.path@) + sym_text(names, q.member)
}

/// Every symbol of `q` is known to `table`.
pub open spec fn qualified_known(table: SymbolTable, q: Qualified) -> bool {
    qualified_below(q, table@.len())
}

/// Every named local of `lctx` is known to a table of `n` names.
pub open spec fn locals_below(lctx: Seq<LocalBinder>, n: nat) -> bool {
    forall|k: int| 0 <= k < lctx.len() ==> ((#[trigger] lctx[k]).name matches Some(s) ==> (s.0 as nat) < n)
}

/// `s` resolves: a local of that name where it is unqualified, else a
/// declaration of the namespace at its path.
pub open spec fn resolves(lctx: Seq<LocalBinder>, ns: crate::namespace::Namespace, s: Qualified) -> bool {
    ||| s.path@.len() == 0 && last_named(lctx, s.member) is Some
    ||| spec_walk(ns, s.path@) matches Some(n) && decl_lookup(n.decls@, s.member) is Some
}

/// Appends the written form of `q` to `out`.
pub fn push_qualified(out: &mut Vec<char>, table: &SymbolTable, q: &Qualified)
    requires
        qualified_known(*table, *q),
    ensures
        final(out)@ == old(out)@ + qualified_text(table@, *q),
{
    let mut i: usize = 0;
    let ghost start = old(out)@;
    while i < q.path.len()
        invariant
            i <= q.path@.len(),
            qualified_known(*table, *q),
            out@ == start + path_prefix_text(table@, q.path@.take(i as int)),
        decreases q.path.len() - i,
    {
        push_str(out, q.path[i].as_str(table));
        push_str(out, "::");
        proof {
            let p = q.path@.take(i + 1);
            assert(p.drop_last() =~= q.path@.take(i as int));
            assert(out@ =~= start + path_prefix_text(table@, p));
        }
        i = i + 1;
    }
    assert(q.path@.take(q.path@.len() as int) =~= q.path@);
    push_str(out, q.member.as_str(table));
    assert(out@ =~= start + qualified_text(table@, *q));
}

/// The names of the named locals of `lctx`, outermost first.
pub open spec fn named_locals(lctx: Seq<LocalBinder>) -> Seq<Symbol>
    decreases lctx.len(),
{
    if lctx.len() == 0 {
        Seq::empty()
    } else {
        match lctx.last().name {
            Some(s) => named_locals(lctx.drop_last()).push(s),
            None => named_locals(lctx.drop_last()),
        }
    }
}

/// The suggestion for a name that does not resolve, as a path and a member:
/// for an unqualified name the best match among the named locals and then
/// the declarations of the file, unless it is the name itself; else what the
/// namespace finds similar.
pub open spec fn spec_suggest(
    lctx: Seq<LocalBinder>,
    ns: Namespace,
    names: Seq<Seq<char>>,
    qpath: Seq<Symbol>,
    member: Symbol,
) -> Option<(Seq<Symbol>, Symbol)> {
    if qpath.len() == 0 {
        match spec_best_match(names, sym_text(names, member), named_locals(lctx) + decl_name_seq(ns)) {
            None => None,
            Some(m) => if m == member {
                None
            } else {
                Some((Seq::empty(), m))
            },
        }
    } else {
        spec_similar(ns, names, qpath, member)
    }
}

impl<'a> ElabCtx<'a> {
    /// The names of the named locals in scope, outermost first.
    fn local_names(&self) -> (r: Vec<Symbol>)
        ensures
            r@ == named_locals(self.lctx@),
            forall|k: int| 0 <= k < r@.len() ==> last_named(self.lctx@, #[trigger] r@[k]) is Some,
    {
        let mut r: Vec<Symbol> = Vec::new();
        let mut i: usize = 0;
        while i < self.lctx.len()
            invariant
                i <= self.lctx@.len(),
                r@ == named_locals(self.lctx@.take(i as int)),
                forall|k: int| 0 <= k < r@.len() ==> last_named(self.lctx@, #[trigger] r@[k]) is Some,
            decreases self.lctx@.len() - i,
        {
            assert(self.lctx@.take(i + 1).drop_last() =~= self.lctx@.take(i as int));
            let b = self.lctx.get(i);
            match b.name {
                Some(s) => {
                    proof {
                        lemma_last_named_facts(self.lctx@, s);
                        assert(self.lctx@[i as int].name == Some(s));
                    }
                    r.push(s);
                },
                None => {},
            }
            i = i + 1;
        }
        assert(self.lctx@.take(self.lctx@.len() as int) =~= self.lctx@);
        r
    }

    /// A name close to `qual` that resolves: for an unqualified name the
    /// closest local or declaration of the file, else a similar name of the
    /// namespace.
    pub fn suggest(&self, table: &SymbolTable, qual: &Qualified) -> (r: Option<Qualified>)
        requires
            names_below(*self.namespace, table@.len()),
            locals_below(self.lctx@, table@.len()),
            qualified_known(*table, *qual),
        ensures
            match spec_suggest(self.lctx@, *self.namespace, table@, qual.path@, qual.member) {
                None => r is None,
                Some((p, m)) => r matches Some(s) && s.path@ == p && s.member == m,
            },
            r matches Some(s) ==> is_suggestion(table@, *qual, s) && resolves(self.lctx@, *self.namespace, s)
                && qualified_known(*table, s),
    {
        if qual.path.len() == 0 {
            let mut candidates = self.local_names();
            let ghost nl = candidates@.len();
            let decls = self.namespace.decl_names();
            let mut i: usize = 0;
            while i < decls.len()
                invariant
                    i <= decls@.len(),
                    candidates@.len() == nl + i,
                    forall|k: int| 0 <= k < i ==> candidates@[nl + k] == #[trigger] decls@[k],
                    candidates@ == named_locals(self.lctx@) + decls@.take(i as int),
                    forall|k: int| 0 <= k < nl ==> last_named(self.lctx@, #[trigger] candidates@[k]) is Some,
                decreases decls.len() - i,
            {
                candidates.push(decls[i]);
                assert(decls@.take(i + 1) =~= decls@.take(i as int).push(decls@[i as int]));
                i = i + 1;
            }
            assert(decls@ =~= decl_name_seq(*self.namespace));
            assert(decls@.take(decls@.len() as int) =~= decls@);
            proof {
                assert(spec_walk(*self.namespace, Seq::<Symbol>::empty()) == Some(*self.namespace));
                assert(crate::namespace::level_below(*self.namespace, table@.len()));
                assert forall|k: int| 0 <= k < candidates@.len() implies table.knows(#[trigger] candidates@[k]) by {
                    if k < nl {
                        lemma_last_named_facts(self.lctx@, candidates@[k]);
                        let j = last_named(self.lctx@, candidates@[k]).unwrap();
                        assert(self.lctx@[j].name == Some(candidates@[k]));
                    } else {
                        assert(candidates@[k] == decls@[k - nl]);
                        assert(decls@[k - nl] == self.namespace.decls@[k - nl].0);
                    }
                }
            }
            let member = match best_match(table, qual.member, candidates.as_slice()) {
                Some(m) => m,
                None => return None,
            };
            if member.0 == qual.member.0 {
                return None;
            }
            let s = Qualified { path: Vec::new(), member };
            proof {
                let k = choose|k: int| 0 <= k < candidates@.len() && candidates@[k] == member;
                if k < nl {
                    assert(last_named(self.lctx@, candidates@[k]) is Some);
                } else {
                    assert(decls@[k - nl] == self.namespace.decls@[k - nl].0);
                    crate::namespace::lemma_decl_lookup_some(self.namespace.decls@, k - nl);
                }
                assert(s.path@ =~= Seq::<Symbol>::empty());
            }
            Some(s)
        } else {
            self.namespace.similar(table, qual)
        }
    }

    /// Reports that `qual` does not resolve, with a suggestion where there is
    /// one, and returns the poisoned term and type.
    pub fn unresolved_name(&mut self, table: &SymbolTable, qual: &Qualified, range: TextRange) -> (r: (Term, Term))
        requires
            names_below(*old(self).namespace, table@.len()),
            locals_below(old(self).lctx@, table@.len()),
            qualified_known(*table, *qual),
        ensures
            r.0 is Error && r.1 is Error,
            final(self).diagnostics@.len() == old(self).diagnostics@.len() + 1,
            final(self).diagnostics@.drop_last() == old(self).diagnostics@,
            ({
                let d = final(self).diagnostics@.last();
                &&& diag_head(d, old(self).file, range, "unresolved name '"@ + qualified_text(table@, *qual) + "'"@)
                &&& d.primary.message is None
                &&& d.notes@.len() == 0
                &&& match spec_suggest(old(self).lctx@, *old(self).namespace, table@, qual.path@, qual.member) {
                    None => d.helps@.len() == 0,
                    Some((p, m)) => d.helps@.len() == 1 && d.helps@[0]@ == "did you mean `"@
                        + path_prefix_text(table@, p) + sym_text(table@, m) + "`"@,
                }
                &&& d.helps@.len() == 1 ==> exists|s: Qualified|
                    is_suggestion(table@, *qual, s) && resolves(old(self).lctx@, *old(self).namespace, s)
                        && #[trigger] d.helps@[0]@ == "did you mean `"@ + qualified_text(table@, s) + "`"@
            }),
            final(self).env == old(self).env,
            final(self).lang_items == old(self).lang_items,
            final(self).namespace == old(self).namespace,
            final(self).fuel == old(self).fuel,
            final(self).lctx == old(self).lctx,
            final(self).mctx == old(self).mctx,
            final(self).gen_ == old(self).gen_,
            final(self).current_decl == old(self).current_decl,
            final(self).file == old(self).file,
            final(self).autobound == old(self).autobound,
            final(self).frames == old(self).frames,
    {
        let mut msg: Vec<char> = Vec::new();
        push_str(&mut msg, "unresolved name '");
        push_qualified(&mut msg, table, qual);
        push_str(&mut msg, "'");
        let m = string_from_chars(msg.as_slice());
        let mut diag = self.mk_error(range, m.as_str());
        match self.suggest(table, qual) {
            Some(s) => {
                let mut help: Vec<char> = Vec::new();
                push_str(&mut help, "did you mean `");
                push_qualified(&mut help, table, &s);
                push_str(&mut help, "`");
                diag = diag.with_help(string_from_chars(help.as_slice()));
            },
            None => {},
        }
        let r = self.error(diag);
        assert(self.diagnostics@.drop_last() =~= old(self).diagnostics@);
        r
    }
}

} // verus!
