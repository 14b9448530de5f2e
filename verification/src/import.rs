//! Imports: the `import a::b::{c, d}` declarations of a file, flattened into
//! one entry per imported name.

use vstd::prelude::*;
use crate::diagnostics::TextRange;
use crate::ids::{Symbol, SymbolTable};
use crate::text::{push_str, string_from_chars};

verus! {

/// An imported name: `name` from the module at path `module`, written at `start..end`.
#[derive(Debug)]
pub struct Import {
    pub module: Vec<Symbol>,
    pub name: Symbol,
    pub start: u32,
    pub end: u32,
}

/// What follows the path of an import group.
#[derive(Debug)]
pub enum ImportTarget {
    /// A single name; `None` where the parser found no identifier.
    Identifier(Option<String>),
    /// A braced list of nested groups.
    List(Vec<ImportGroup>),
}

/// An import group as parsed: a path of segments (`None` for a segment with
/// no identifier), a target, and the source range of the group.
#[derive(Debug)]
pub struct ImportGroup {
    pub path: Vec<Option<String>>,
    pub target: Option<ImportTarget>,
    pub range: TextRange,
}

/// An import as text: module path, name, start and end.
pub type ImportText = (Seq<Seq<char>>, Seq<char>, u32, u32);

/// Every segment of the path has an identifier.
pub open spec fn path_complete(path: Seq<Option<String>>) -> bool {
    forall|i: int| 0 <= i < path.len() ==> #[trigger] path[i] is Some
}

/// The texts of a complete path.
pub open spec fn path_text(path: Seq<Option<String>>) -> Seq<Seq<char>> {
    path.map_values(|s: Option<String>| s.unwrap()@)
}

/// The imports a group declares under the module path `prefix`.
pub open spec fn spec_group_imports(g: ImportGroup, prefix: Seq<Seq<char>>) -> Seq<ImportText>
    decreases g, 0nat,
{
    if !path_complete(g.path@) {
        Seq::empty()
    } else {
        let module = prefix + path_text(g.path@);
        match g.target {
            Some(ImportTarget::Identifier(Some(t))) => seq![(module, t@, g.range.start, g.range.end)],
            Some(ImportTarget::List(l)) => spec_list_imports(l@, module),
            _ => Seq::empty(),
        }
    }
}

/// The imports of the groups `gs`, in order, under `prefix`.
pub open spec fn spec_list_imports(gs: Seq<ImportGroup>, prefix: Seq<Seq<char>>) -> Seq<ImportText>
    decreases gs, 1nat,
{
    if gs.len() == 0 {
        Seq::empty()
    } else {
        spec_list_imports(gs.subrange(0, gs.len() - 1), prefix) + spec_group_imports(
            gs[gs.len() - 1],
            prefix,
        )
    }
}

/// Number of names a group would intern.
pub open spec fn group_names(g: ImportGroup) -> nat
    decreases g, 0nat,
{
    g.path@.len() + 1 + match g.target {
        Some(ImportTarget::List(l)) => list_names(l@),
        _ => 0,
    }
}

/// Number of names a list of groups would intern.
pub open spec fn list_names(gs: Seq<ImportGroup>) -> nat
    decreases gs, 1nat,
{
    if gs.len() == 0 {
        0
    } else {
        list_names(gs.subrange(0, gs.len() - 1)) + group_names(gs[gs.len() - 1])
    }
}

/// The text of an import under the symbol table `names`.
pub open spec fn import_text(names: Seq<Seq<char>>, i: Import) -> ImportText {
    (i.module@.map_values(|s: Symbol| names[s.0 as int]), names[i.name.0 as int], i.start, i.end)
}

/// Every symbol of `i` is known to a table of `n` texts.
pub open spec fn import_known(n: nat, i: Import) -> bool {
    (i.name.0 as int) < n && forall|k: int| 0 <= k < i.module@.len() ==> (#[trigger] i.module@[k].0 as int) < n
}

/// `new` keeps the texts of `old` and may add more.
pub open spec fn table_grows(old: Seq<Seq<char>>, new: Seq<Seq<char>>) -> bool {
    old.len() <= new.len() && forall|i: int| 0 <= i < old.len() ==> #[trigger] new[i] == old[i]
}

/// Interns `text`, which must fit in the table.
fn intern(table: &mut SymbolTable, text: &str) -> (s: Symbol)
    requires
        old(table).wf(),
        old(table)@.len() < u32::MAX,
    ensures
        final(table).wf(),
        (s.0 as int) < final(table)@.len(),
        final(table)@[s.0 as int] == text@,
        table_grows(old(table)@, final(table)@),
        final(table)@.len() <= old(table)@.len() + 1,
{
    Symbol::from_str(table, text)
}

/// The texts of symbols under the table `names`.
pub open spec fn symbol_texts(names: Seq<Seq<char>>, syms: Seq<Symbol>) -> Seq<Seq<char>> {
    syms.map_values(|s: Symbol| names[s.0 as int])
}

/// The texts of known symbols stay the same as the table grows.
pub proof fn lemma_symbol_texts_grow(t1: Seq<Seq<char>>, t2: Seq<Seq<char>>, syms: Seq<Symbol>)
    requires
        table_grows(t1, t2),
        forall|m: int| 0 <= m < syms.len() ==> (#[trigger] syms[m].0 as int) < t1.len(),
    ensures
        symbol_texts(t2, syms) == symbol_texts(t1, syms),
{
    assert forall|m: int| 0 <= m < syms.len() implies #[trigger] symbol_texts(t2, syms)[m]
        == symbol_texts(t1, syms)[m] by {
        assert(t2[syms[m].0 as int] == t1[syms[m].0 as int]);
    }
    assert(symbol_texts(t2, syms) =~= symbol_texts(t1, syms));
}

proof fn lemma_import_text_grow(t1: Seq<Seq<char>>, t2: Seq<Seq<char>>, i: Import)
    requires
        table_grows(t1, t2),
        import_known(t1.len(), i),
    ensures
        import_text(t2, i) == import_text(t1, i),
        import_known(t2.len(), i),
{
    lemma_symbol_texts_grow(t1, t2, i.module@);
    assert(t2[i.name.0 as int] == t1[i.name.0 as int]);
}

proof fn lemma_list_names_prefix(gs: Seq<ImportGroup>, g: int)
    requires
        0 <= g < gs.len(),
    ensures
        list_names(gs.take(g)) + group_names(gs[g]) == list_names(gs.take(g + 1)),
        list_names(gs.take(g + 1)) <= list_names(gs),
    decreases gs.len(),
{
    assert(gs.take(g + 1).subrange(0, g) =~= gs.take(g));
    assert(gs.take(g + 1)[g] == gs[g]);
    if g + 1 < gs.len() {
        lemma_list_names_prefix(gs.subrange(0, gs.len() - 1), g);
        assert(gs.subrange(0, gs.len() - 1).take(g + 1) =~= gs.take(g + 1));
        assert(gs.subrange(0, gs.len() - 1).take(g) =~= gs.take(g));
    } else {
        assert(gs.take(g + 1) =~= gs);
    }
}

fn copy_symbols(s: &[Symbol]) -> (r: Vec<Symbol>)
    ensures
        r@ == s@,
{
    let mut r: Vec<Symbol> = Vec::new();
    let mut i: usize = 0;
    while i < s.len()
        invariant
            i <= s@.len(),
            r@ == s@.take(i as int),
        decreases s.len() - i,
    {
        r.push(s[i]);
        i = i + 1;
        assert(r@ =~= s@.take(i as int));
    }
    assert(s@.take(s@.len() as int) =~= s@);
    r
}

/// Appends to `out` the imports of `group` under the module path `prefix`,
/// interning their names in `table`.
pub fn collect_group(table: &mut SymbolTable, group: &ImportGroup, prefix: &[Symbol], out: &mut Vec<Import>)
    requires
        old(table).wf(),
        old(table)@.len() + group_names(*group) < u32::MAX,
        forall|k: int| 0 <= k < prefix@.len() ==> (#[trigger] prefix@[k].0 as int) < old(table)@.len(),
        forall|j: int| 0 <= j < old(out)@.len() ==> import_known(old(table)@.len(), #[trigger] old(out)@[j]),
    ensures
        final(table).wf(),
        table_grows(old(table)@, final(table)@),
        final(table)@.len() <= old(table)@.len() + group_names(*group),
        final(out)@.len() == old(out)@.len() + spec_group_imports(
            *group,
            symbol_texts(old(table)@, prefix@),
        ).len(),
        forall|j: int| 0 <= j < old(out)@.len() ==> #[trigger] final(out)@[j] == old(out)@[j],
        forall|j: int| 0 <= j < final(out)@.len() ==> import_known(final(table)@.len(), #[trigger] final(out)@[j]),
        forall|j: int|
            0 <= j < final(out)@.len() - old(out)@.len() ==> import_text(
                final(table)@,
                #[trigger] final(out)@[old(out)@.len() + j],
            ) == spec_group_imports(*group, symbol_texts(old(table)@, prefix@))[j],
    decreases group,
{
    let ghost t0 = table@;
    let ghost out0 = out@;
    let ghost ptext = symbol_texts(t0, prefix@);
    let mut module = copy_symbols(prefix);
    let mut k: usize = 0;
    while k < group.path.len()
        invariant
            k <= group.path@.len(),
            table.wf(),
            t0 == old(table)@,
            out@ == out0,
            out0 == old(out)@,
            forall|j: int| 0 <= j < out0.len() ==> import_known(t0.len(), #[trigger] out0[j]),
            ptext == symbol_texts(t0, prefix@),
            table_grows(t0, table@),
            table@.len() <= t0.len() + k,
            t0.len() + group_names(*group) < u32::MAX,
            forall|j: int| 0 <= j < k ==> #[trigger] group.path@[j] is Some,
            forall|m: int| 0 <= m < module@.len() ==> (#[trigger] module@[m].0 as int) < table@.len(),
            symbol_texts(table@, module@) == ptext + path_text(group.path@.take(k as int)),
        decreases group.path.len() - k,
    {
        let seg = match &group.path[k] {
            Some(t) => t,
            None => {
                proof {
                    assert(!path_complete(group.path@));
                    assert forall|j: int| 0 <= j < out@.len() implies import_known(
                        table@.len(),
                        #[trigger] out@[j],
                    ) by {
                        lemma_import_text_grow(t0, table@, out@[j]);
                    }
                }
                return;
            },
        };
        let ghost tb = table@;
        let ghost mb = module@;
        let s = intern(table, seg.as_str());
        module.push(s);
        proof {
            lemma_symbol_texts_grow(tb, table@, mb);
            assert(group.path@.take(k + 1) =~= group.path@.take(k as int).push(group.path@[k as int]));
            assert(path_text(group.path@.take(k + 1)) =~= path_text(group.path@.take(k as int)).push(seg@));
            assert(symbol_texts(table@, module@) =~= symbol_texts(table@, mb).push(seg@));
        }
        k = k + 1;
    }
    proof {
        assert(group.path@.take(group.path@.len() as int) =~= group.path@);
        assert(path_complete(group.path@));
    }
    let ghost mtext = ptext + path_text(group.path@);
    match &group.target {
        Some(ImportTarget::Identifier(Some(text))) => {
            let ghost tb = table@;
            let name = intern(table, text.as_str());
            proof {
                lemma_symbol_texts_grow(tb, table@, module@);
                assert forall|j: int| 0 <= j < out@.len() implies import_known(
                    table@.len(),
                    #[trigger] out@[j],
                ) by {
                    lemma_import_text_grow(t0, table@, out@[j]);
                }
            }
            out.push(Import { module, name, start: group.range.start, end: group.range.end });
        },
        Some(ImportTarget::List(list)) => {
            let mut g: usize = 0;
            let ghost t1 = table@;
            proof {
                assert(list@.take(0) =~= Seq::<ImportGroup>::empty());
                assert forall|j: int| 0 <= j < out@.len() implies import_known(
                    table@.len(),
                    #[trigger] out@[j],
                ) by {
                    lemma_import_text_grow(t0, table@, out@[j]);
                }
            }
            while g < list.len()
                invariant
                    g <= list@.len(),
                    group.target == Some(ImportTarget::List(*list)),
                    table.wf(),
                    t0 == old(table)@,
                    out0 == old(out)@,
                    table_grows(t0, t1),
                    table_grows(t1, table@),
                    t1.len() <= t0.len() + group.path@.len(),
                    table@.len() <= t1.len() + list_names(list@.take(g as int)),
                    t0.len() + group_names(*group) < u32::MAX,
                    group_names(*group) == group.path@.len() + 1 + list_names(list@),
                    forall|m: int| 0 <= m < module@.len() ==> (#[trigger] module@[m].0 as int) < t1.len(),
                    symbol_texts(t1, module@) == mtext,
                    out@.len() == out0.len() + spec_list_imports(list@.take(g as int), mtext).len(),
                    forall|j: int| 0 <= j < out0.len() ==> #[trigger] out@[j] == out0[j],
                    forall|j: int| 0 <= j < out@.len() ==> import_known(table@.len(), #[trigger] out@[j]),
                    forall|j: int|
                        0 <= j < out@.len() - out0.len() ==> import_text(
                            table@,
                            #[trigger] out@[out0.len() + j],
                        ) == spec_list_imports(list@.take(g as int), mtext)[j],
                decreases list.len() - g,
            {
                let ghost tb = table@;
                let ghost ob = out@;
                proof {
                    lemma_list_names_prefix(list@, g as int);
                    lemma_symbol_texts_grow(t1, tb, module@);
                    assert(decreases_to!(*group => list@[g as int]));
                }
                collect_group(table, &list[g], &module, out);
                proof {
                    let before = spec_list_imports(list@.take(g as int), mtext);
                    let here = spec_group_imports(list@[g as int], mtext);
                    assert(list@.take(g + 1).subrange(0, g as int) =~= list@.take(g as int));
                    assert(list@.take(g + 1)[g as int] == list@[g as int]);
                    assert(spec_list_imports(list@.take(g + 1), mtext) == before + here);
                    assert forall|j: int| 0 <= j < out@.len() - out0.len() implies import_text(
                        table@,
                        #[trigger] out@[out0.len() + j],
                    ) == (before + here)[j] by {
                        if j < before.len() {
                            assert(out@[out0.len() + j] == ob[out0.len() + j]);
                            lemma_import_text_grow(tb, table@, ob[out0.len() + j]);
                        } else {
                            assert(out@[ob.len() + (j - before.len())] == out@[out0.len() + j]);
                        }
                    }
                    assert forall|j: int| 0 <= j < out0.len() implies #[trigger] out@[j] == out0[j] by {
                        assert(out@[j] == ob[j]);
                    }
                }
                g = g + 1;
            }
            proof {
                assert(list@.take(list@.len() as int) =~= list@);
            }
        },
        _ => {},
    }
}

/// `a::b::name`: the module path and the name, joined by `::`.
pub open spec fn spec_import_display(names: Seq<Seq<char>>, i: Import) -> Seq<char>
    decreases i.module@.len(),
{
    join_module(i.module@.map_values(|s: Symbol| names[s.0 as int])) + names[i.name.0 as int]
}

/// Each segment followed by `::`.
pub open spec fn join_module(segs: Seq<Seq<char>>) -> Seq<char>
    decreases segs.len(),
{
    if segs.len() == 0 {
        Seq::empty()
    } else {
        join_module(segs.drop_last()) + segs.last() + "::"@
    }
}

/// How an import is written in messages, e.g. `a::b::c`.
pub fn import_display(table: &SymbolTable, import: &Import) -> (r: String)
    requires
        import_known(table@.len(), *import),
    ensures
        r@ == spec_import_display(table@, *import),
{
    let mut out: Vec<char> = Vec::new();
    let mut i: usize = 0;
    while i < import.module.len()
        invariant
            i <= import.module@.len(),
            import_known(table@.len(), *import),
            out@ == join_module(import.module@.take(i as int).map_values(|s: Symbol| table@[s.0 as int])),
        decreases import.module.len() - i,
    {
        let ghost before = out@;
        push_str(&mut out, import.module[i].as_str(table));
        push_str(&mut out, "::");
        proof {
            let segs = import.module@.take(i + 1).map_values(|s: Symbol| table@[s.0 as int]);
            assert(segs.drop_last() =~= import.module@.take(i as int).map_values(
                |s: Symbol| table@[s.0 as int],
            ));
        }
        i = i + 1;
    }
    proof {
        assert(import.module@.take(import.module@.len() as int) =~= import.module@);
    }
    push_str(&mut out, import.name.as_str(table));
    string_from_chars(&out)
}


/// The import groups of the declarations `decls`, in order.
pub open spec fn import_groups(decls: Seq<crate::ast::Decl>) -> Seq<ImportGroup>
    decreases decls.len(),
{
    if decls.len() == 0 {
        Seq::empty()
    } else {
        import_groups(decls.drop_last()) + match decls.last() {
            crate::ast::Decl::Import { group: Some(g), .. } => seq![g],
            _ => Seq::empty(),
        }
    }
}

/// The imports of a file's declarations, in order, each name interned in `table`.
pub fn file_imports(table: &mut SymbolTable, source: &Vec<crate::ast::Decl>) -> (r: Vec<Import>)
    requires
        old(table).wf(),
        old(table)@.len() + list_names(import_groups(source@)) < u32::MAX,
    ensures
        final(table).wf(),
        table_grows(old(table)@, final(table)@),
        r@.len() == spec_list_imports(import_groups(source@), Seq::empty()).len(),
        forall|j: int| 0 <= j < r@.len() ==> import_known(final(table)@.len(), #[trigger] r@[j]),
        forall|j: int| 0 <= j < r@.len() ==> import_text(final(table)@, #[trigger] r@[j]) == spec_list_imports(
            import_groups(source@),
            Seq::empty(),
        )[j],
{
    let mut out: Vec<Import> = Vec::new();
    let mut i: usize = 0;
    let ghost t0 = table@;
    while i < source.len()
        invariant
            i <= source@.len(),
            table.wf(),
            table_grows(t0, table@),
            t0 == old(table)@,
            table@.len() <= t0.len() + list_names(import_groups(source@.take(i as int))),
            t0.len() + list_names(import_groups(source@)) < u32::MAX,
            out@.len() == spec_list_imports(import_groups(source@.take(i as int)), Seq::empty()).len(),
            forall|j: int| 0 <= j < out@.len() ==> import_known(table@.len(), #[trigger] out@[j]),
            forall|j: int| 0 <= j < out@.len() ==> import_text(table@, #[trigger] out@[j]) == spec_list_imports(
                import_groups(source@.take(i as int)),
                Seq::empty(),
            )[j],
        decreases source.len() - i,
    {
        proof {
            assert(source@.take(i + 1).drop_last() =~= source@.take(i as int));
            lemma_import_groups_prefix(source@, i + 1);
        }
        match &source[i] {
            crate::ast::Decl::Import { group: Some(g), .. } => {
                let ghost tb = table@;
                let ghost ob = out@;
                let ghost gs = import_groups(source@.take(i as int));
                proof {
                    assert(import_groups(source@.take(i + 1)) == gs + seq![*g]);
                    lemma_list_names_push(gs, *g);
                    assert(symbol_texts(tb, Seq::<Symbol>::empty()) =~= Seq::<Seq<char>>::empty());
                }
                let empty: Vec<Symbol> = Vec::new();
                collect_group(table, g, empty.as_slice(), &mut out);
                proof {
                    let gs1 = gs + seq![*g];
                    let e = Seq::<Seq<char>>::empty();
                    assert(gs1.subrange(0, gs1.len() - 1) =~= gs);
                    assert(gs1[gs1.len() - 1] == *g);
                    assert(symbol_texts(tb, empty@) =~= e);
                    assert(spec_list_imports(gs1, e) == spec_list_imports(gs, e) + spec_group_imports(*g, e));
                    assert forall|j: int| 0 <= j < out@.len() implies import_text(table@, #[trigger] out@[j])
                        == spec_list_imports(gs1, Seq::empty())[j] by {
                        if j < ob.len() {
                            assert(out@[j] == ob[j]);
                            lemma_import_text_grow(tb, table@, ob[j]);
                            assert(spec_list_imports(gs1, e)[j] == spec_list_imports(gs, e)[j]);
                        } else {
                            let m = j - ob.len();
                            assert(out@[ob.len() + m] == out@[j]);
                            assert(import_text(table@, out@[ob.len() + m]) == spec_group_imports(*g, symbol_texts(tb, empty@))[m]);
                            assert(spec_list_imports(gs1, e)[j] == spec_group_imports(*g, e)[m]);
                        }
                    }
                }
            },
            _ => {
                proof {
                    assert(import_groups(source@.take(i + 1)) =~= import_groups(source@.take(i as int)));
                }
            },
        }
        i = i + 1;
    }
    proof {
        assert(source@.take(source@.len() as int) =~= source@);
    }
    out
}

proof fn lemma_list_names_push(gs: Seq<ImportGroup>, g: ImportGroup)
    ensures
        list_names(gs + seq![g]) == list_names(gs) + group_names(g),
{
    let s = gs + seq![g];
    assert(s.subrange(0, s.len() - 1) =~= gs);
    assert(s[s.len() - 1] == g);
}

proof fn lemma_import_groups_prefix(decls: Seq<crate::ast::Decl>, k: int)
    requires
        0 <= k <= decls.len(),
    ensures
        list_names(import_groups(decls.take(k))) <= list_names(import_groups(decls)),
    decreases decls.len() - k,
{
    if k < decls.len() {
        lemma_import_groups_prefix(decls, k + 1);
        let a = decls.take(k + 1);
        assert(a.drop_last() =~= decls.take(k));
        match a.last() {
            crate::ast::Decl::Import { group: Some(g), .. } => {
                lemma_list_names_push(import_groups(decls.take(k)), g);
            },
            _ => {
                assert(import_groups(a) =~= import_groups(decls.take(k)));
            },
        }
    } else {
        assert(decls.take(k) =~= decls);
    }
}
} // verus!
