//! The item tree of a file: one item per named declaration, and one per named
//! constructor of an inductive, in source order.

use vstd::prelude::*;
use crate::env::ItemData;
use crate::ids::{ItemId, ItemKind, Symbol, SymbolTable};
use crate::import::table_grows;

verus! {

/// The header of a declaration, as far as the item tree reads it.
#[derive(Debug)]
pub enum DeclHeader {
    /// A definition; `ident` is its name where the parser found one.
    Def { ident: Option<String> },
    /// An inductive type and, if it has a constructor block, the names of its constructors.
    Inductive { ident: Option<String>, constructors: Option<Vec<Option<String>>> },
    /// An import declaration, which declares no item.
    Import,
}

/// The items of a file, in source order.
#[derive(Debug)]
pub struct ItemTree {
    pub items: Vec<ItemId>,
}

/// An item as text: name, position, kind and the index of its parent item.
pub type ItemText = (Seq<char>, u32, ItemKind, Option<int>);

/// The named constructors among `ctors`, each a constructor item with parent `parent`.
pub open spec fn ctor_items(ctors: Seq<Option<String>>, parent: int) -> Seq<ItemText>
    decreases ctors.len(),
{
    if ctors.len() == 0 {
        Seq::empty()
    } else {
        ctor_items(ctors.drop_last(), parent) + match ctors.last() {
            Some(t) => seq![(t@, (ctors.len() - 1) as u32, ItemKind::Constructor, Some(parent))],
            None => Seq::empty(),
        }
    }
}

/// The items declared by `d`, the `i`-th declaration, whose first item gets index `next`.
pub open spec fn decl_items(d: DeclHeader, i: int, next: int) -> Seq<ItemText> {
    match d {
        DeclHeader::Def { ident: Some(t) } => seq![(t@, i as u32, ItemKind::Def, None)],
        DeclHeader::Inductive { ident: Some(t), constructors } => seq![
            (t@, i as u32, ItemKind::Inductive, None),
        ] + match constructors {
            Some(cs) => ctor_items(cs@, next),
            None => Seq::empty(),
        },
        _ => Seq::empty(),
    }
}

/// The items of the declarations `decls`, the first getting index `base`.
pub open spec fn spec_tree_items(decls: Seq<DeclHeader>, base: int) -> Seq<ItemText>
    decreases decls.len(),
{
    if decls.len() == 0 {
        Seq::empty()
    } else {
        let before = spec_tree_items(decls.drop_last(), base);
        before + decl_items(decls.last(), decls.len() - 1, base + before.len())
    }
}

/// An upper bound on the items of some declarations.
pub open spec fn decls_size(decls: Seq<DeclHeader>) -> nat
    decreases decls.len(),
{
    if decls.len() == 0 {
        0
    } else {
        decls_size(decls.drop_last()) + 1 + match decls.last() {
            DeclHeader::Inductive { constructors: Some(cs), .. } => cs@.len(),
            _ => 0,
        }
    }
}

/// The text of an item under the symbol table `names`.
pub open spec fn item_text(names: Seq<Seq<char>>, d: ItemData) -> ItemText {
    (
        names[d.name.0 as int],
        d.ast_index,
        d.kind,
        match d.parent {
            Some(p) => Some(p.0 as int),
            None => None,
        },
    )
}

/// The symbol for a declaration's name, if it has one.
pub fn decl_symbol(table: &mut SymbolTable, ident: Option<&String>) -> (r: Option<Symbol>)
    requires
        old(table).wf(),
        old(table)@.len() < u32::MAX,
    ensures
        final(table).wf(),
        table_grows(old(table)@, final(table)@),
        final(table)@.len() <= old(table)@.len() + 1,
        match ident {
            Some(t) => r matches Some(s) && (s.0 as int) < final(table)@.len() && final(table)@[s.0 as int]
                == t@,
            None => r is None && final(table)@ == old(table)@,
        },
{
    match ident {
        Some(t) => Some(Symbol::from_str(table, t.as_str())),
        None => None,
    }
}

/// Adds the items of `decls`, declarations of `file`, to `items`, and
/// returns their ids in order.
pub fn item_tree(
    table: &mut SymbolTable,
    items: &mut Vec<ItemData>,
    file: u32,
    decls: &Vec<DeclHeader>,
) -> (tree: ItemTree)
    requires
        old(table).wf(),
        old(table)@.len() + decls_size(decls@) < u32::MAX,
        old(items)@.len() + decls_size(decls@) < u32::MAX,
    ensures
        final(table).wf(),
        table_grows(old(table)@, final(table)@),
        final(items)@.len() == old(items)@.len() + spec_tree_items(decls@, old(items)@.len() as int).len(),
        forall|j: int| 0 <= j < old(items)@.len() ==> #[trigger] final(items)@[j] == old(items)@[j],
        forall|j: int|
            0 <= j < final(items)@.len() - old(items)@.len() ==> {
                let d = #[trigger] final(items)@[old(items)@.len() + j];
                &&& d.file == file
                &&& (d.name.0 as int) < final(table)@.len()
                &&& item_text(final(table)@, d) == spec_tree_items(decls@, old(items)@.len() as int)[j]
            },
        tree.items@.len() == final(items)@.len() - old(items)@.len(),
        forall|j: int| 0 <= j < tree.items@.len() ==> #[trigger] tree.items@[j] == ItemId(
            (old(items)@.len() + j) as u32,
        ),
{
    let ghost t0 = table@;
    let ghost i0 = items@;
    let base = items.len();
    let mut ids: Vec<ItemId> = Vec::new();
    let mut i: usize = 0;
    proof {
        assert(decls@.take(0) =~= Seq::<DeclHeader>::empty());
    }
    while i < decls.len()
        invariant
            i <= decls@.len(),
            base == i0.len(),
            table.wf(),
            table_grows(t0, table@),
            table@.len() <= t0.len() + decls_size(decls@.take(i as int)),
            decls_size(decls@.take(i as int)) >= i,
            t0.len() + decls_size(decls@) < u32::MAX,
            i0.len() + decls_size(decls@) < u32::MAX,
            items@.len() == i0.len() + spec_tree_items(decls@.take(i as int), base as int).len(),
            spec_tree_items(decls@.take(i as int), base as int).len() <= decls_size(decls@.take(i as int)),
            forall|j: int| 0 <= j < i0.len() ==> #[trigger] items@[j] == i0[j],
            forall|j: int|
                0 <= j < items@.len() - i0.len() ==> {
                    let d = #[trigger] items@[i0.len() + j];
                    &&& d.file == file
                    &&& (d.name.0 as int) < table@.len()
                    &&& item_text(table@, d) == spec_tree_items(decls@.take(i as int), base as int)[j]
                },
            ids@.len() == items@.len() - i0.len(),
            forall|j: int| 0 <= j < ids@.len() ==> #[trigger] ids@[j] == ItemId((i0.len() + j) as u32),
        decreases decls.len() - i,
    {
        proof {
            lemma_decls_size_prefix(decls@, i as int);
        }
        let ghost tb = table@;
        let ghost ib = items@;
        let ghost before = spec_tree_items(decls@.take(i as int), base as int);
        let ghost here = decl_items(decls@[i as int], i as int, base + before.len());
        assert(i < u32::MAX);
        match &decls[i] {
            DeclHeader::Def { ident } => {
                match decl_symbol(table, ident.as_ref()) {
                    Some(name) => {
                        let id = ItemId(items.len() as u32);
                        items.push(ItemData { file, name, ast_index: i as u32, kind: ItemKind::Def, parent: None });
                        ids.push(id);
                        proof {
                            assert(item_text(table@, items@[ib.len() as int]) == here[0]);
                        }
                    },
                    None => {},
                }
            },
            DeclHeader::Inductive { ident, constructors } => {
                match decl_symbol(table, ident.as_ref()) {
                    Some(name) => {
                        let ind = ItemId(items.len() as u32);
                        items.push(
                            ItemData { file, name, ast_index: i as u32, kind: ItemKind::Inductive, parent: None },
                        );
                        ids.push(ind);
                        match constructors {
                            Some(cs) => {
                                let ghost ib2 = items@;
                                let ghost tb2 = table@;
                                let mut c: usize = 0;
                                while c < cs.len()
                                    invariant
                                        c <= cs@.len(),
                                        table.wf(),
                                        table_grows(tb2, table@),
                                        table@.len() <= tb2.len() + c,
                                        tb2.len() + cs@.len() < u32::MAX,
                                        ib2.len() + cs@.len() < u32::MAX,
                                        ind.0 as int == ib2.len() - 1,
                                        items@.len() == ib2.len() + ctor_items(cs@.take(c as int), ind.0 as int).len(),
                                        ctor_items(cs@.take(c as int), ind.0 as int).len() <= c,
                                        forall|j: int| 0 <= j < ib2.len() ==> #[trigger] items@[j] == ib2[j],
                                        forall|j: int|
                                            0 <= j < items@.len() - ib2.len() ==> {
                                                let d = #[trigger] items@[ib2.len() + j];
                                                &&& d.file == file
                                                &&& (d.name.0 as int) < table@.len()
                                                &&& item_text(table@, d) == ctor_items(cs@.take(c as int), ind.0 as int)[j]
                                            },
                                        ids@.len() == items@.len() - i0.len(),
                                        forall|j: int| 0 <= j < ids@.len() ==> #[trigger] ids@[j] == ItemId(
                                            (i0.len() + j) as u32,
                                        ),
                                    decreases cs.len() - c,
                                {
                                    let ghost tc = table@;
                                    let ghost ic = items@;
                                    match decl_symbol(table, cs[c].as_ref()) {
                                        Some(cname) => {
                                            let id = ItemId(items.len() as u32);
                                            items.push(
                                                ItemData {
                                                    file,
                                                    name: cname,
                                                    ast_index: c as u32,
                                                    kind: ItemKind::Constructor,
                                                    parent: Some(ind),
                                                },
                                            );
                                            ids.push(id);
                                        },
                                        None => {},
                                    }
                                    proof {
                                        assert(cs@.take(c + 1).drop_last() =~= cs@.take(c as int));
                                        assert(cs@.take(c + 1).last() == cs@[c as int]);
                                        assert forall|j: int| 0 <= j < items@.len() - ib2.len() implies {
                                            let d = #[trigger] items@[ib2.len() + j];
                                            &&& d.file == file
                                            &&& (d.name.0 as int) < table@.len()
                                            &&& item_text(table@, d) == ctor_items(cs@.take(c + 1), ind.0 as int)[j]
                                        } by {
                                            if ib2.len() + j < ic.len() {
                                                assert(items@[ib2.len() + j] == ic[ib2.len() + j]);
                                                let d = ic[ib2.len() + j];
                                                assert(table@[d.name.0 as int] == tc[d.name.0 as int]);
                                            }
                                        }
                                    }
                                    c = c + 1;
                                }
                                proof {
                                    assert(cs@.take(cs@.len() as int) =~= cs@);
                                    assert(ind.0 as int == base + before.len());
                                    assert(here =~= seq![(table@[name.0 as int], i as u32, ItemKind::Inductive, None::<int>)]
                                        + ctor_items(cs@, ind.0 as int));
                                    assert forall|j: int| 0 <= j < items@.len() - ib.len() implies {
                                        let d = #[trigger] items@[ib.len() + j];
                                        &&& d.file == file
                                        &&& (d.name.0 as int) < table@.len()
                                        &&& item_text(table@, d) == here[j]
                                    } by {
                                        if j == 0 {
                                            assert(items@[ib.len() as int] == ib2[ib.len() as int]);
                                            assert(table@[name.0 as int] == tb2[name.0 as int]);
                                        } else {
                                            assert(items@[ib.len() + j] == items@[ib2.len() + (j - 1)]);
                                        }
                                    }
                                }
                            },
                            None => {
                                proof {
                                    assert(here =~= seq![(table@[name.0 as int], i as u32, ItemKind::Inductive, None::<int>)]);
                                    assert(item_text(table@, items@[ib.len() as int]) == here[0]);
                                }
                            },
                        }
                    },
                    None => {},
                }
            },
            DeclHeader::Import => {},
        }
        proof {
            let here = decl_items(decls@[i as int], i as int, base + before.len());
            assert(decls@.take(i + 1).drop_last() =~= decls@.take(i as int));
            assert(decls@.take(i + 1).last() == decls@[i as int]);
            assert(spec_tree_items(decls@.take(i + 1), base as int) == before + here);
            assert forall|j: int| 0 <= j < items@.len() - i0.len() implies {
                let d = #[trigger] items@[i0.len() + j];
                &&& d.file == file
                &&& (d.name.0 as int) < table@.len()
                &&& item_text(table@, d) == (before + here)[j]
            } by {
                if j < before.len() {
                    assert(items@[i0.len() + j] == ib[i0.len() + j]);
                    let d = ib[i0.len() + j];
                    assert(table@[d.name.0 as int] == tb[d.name.0 as int]);
                } else {
                    assert(items@[i0.len() + j] == items@[ib.len() + (j - before.len())]);
                }
            }
            assert forall|j: int| 0 <= j < i0.len() implies #[trigger] items@[j] == i0[j] by {
                assert(items@[j] == ib[j]);
            }
        }
        i = i + 1;
    }
    proof {
        assert(decls@.take(decls@.len() as int) =~= decls@);
    }
    ItemTree { items: ids }
}

proof fn lemma_decls_size_prefix(decls: Seq<DeclHeader>, i: int)
    requires
        0 <= i < decls.len(),
    ensures
        decls_size(decls.take(i + 1)) == decls_size(decls.take(i)) + 1 + match decls[i] {
            DeclHeader::Inductive { constructors: Some(cs), .. } => cs@.len(),
            _ => 0,
        },
        decls_size(decls.take(i + 1)) <= decls_size(decls),
    decreases decls.len(),
{
    assert(decls.take(i + 1).drop_last() =~= decls.take(i));
    if i + 1 < decls.len() {
        lemma_decls_size_prefix(decls.drop_last(), i);
        assert(decls.drop_last().take(i + 1) =~= decls.take(i + 1));
        assert(decls.drop_last().take(i) =~= decls.take(i));
    } else {
        assert(decls.take(i + 1) =~= decls);
    }
}

} // verus!
