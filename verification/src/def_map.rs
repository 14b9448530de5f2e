//! The names a file sees: its own declarations, the constructors of its
//! inductives under their inductive's name, and what its imports bring in.

use vstd::prelude::*;
use crate::env::ItemData;
use crate::ids::{ItemId, Symbol, SymbolTable};
use crate::import::{import_display, import_known, lemma_symbol_texts_grow, spec_import_display, symbol_texts, table_grows, Import};
use crate::diagnostics::{Diagnostic, TextRange};
use crate::report::diag_head;
use crate::text::{push_str, string_from_chars};
use crate::lower::{has_room, intern};
use crate::structure::{components_of, file_stem, parent, parent_of, path_components, relative_to, stem_of, strip_prefix};
use crate::item_tree::ItemTree;
use crate::namespace::{child_index, decl_lookup, lemma_child_index, Namespace};

verus! {

/// The value of the first entry for `k` in `es`.
pub open spec fn assoc<V>(es: Seq<(Symbol, V)>, k: Symbol) -> Option<V>
    decreases es.len(),
{
    if es.len() == 0 {
        None
    } else if es[0].0 == k {
        Some(es[0].1)
    } else {
        assoc(es.drop_first(), k)
    }
}

/// No key occurs twice in `es`.
pub open spec fn keys_unique<V>(es: Seq<(Symbol, V)>) -> bool {
    forall|i: int, j: int| 0 <= i < es.len() && 0 <= j < es.len() && i != j ==> #[trigger] es[i].0 != #[trigger] es[j].0
}

/// The entry of `m` for `k`, if it has one.
pub open spec fn map_get<K, V>(m: Map<K, V>, k: K) -> Option<V> {
    if m.contains_key(k) {
        Some(m[k])
    } else {
        None
    }
}

pub proof fn lemma_assoc_at<V>(es: Seq<(Symbol, V)>, i: int)
    requires
        keys_unique(es),
        0 <= i < es.len(),
    ensures
        assoc(es, es[i].0) == Some(es[i].1),
    decreases es.len(),
{
    if i > 0 {
        assert(es[0].0 != es[i].0);
        assert(es.drop_first()[i - 1] == es[i]);
        assert(keys_unique(es.drop_first())) by {
            assert forall|a: int, b: int|
                0 <= a < es.len() - 1 && 0 <= b < es.len() - 1 && a != b implies #[trigger] es.drop_first()[a].0
                != #[trigger] es.drop_first()[b].0 by {
                assert(es.drop_first()[a] == es[a + 1]);
                assert(es.drop_first()[b] == es[b + 1]);
            }
        }
        lemma_assoc_at(es.drop_first(), i - 1);
    }
}

pub proof fn lemma_assoc_none<V>(es: Seq<(Symbol, V)>, k: Symbol)
    requires
        forall|i: int| 0 <= i < es.len() ==> #[trigger] es[i].0 != k,
    ensures
        assoc(es, k) is None,
    decreases es.len(),
{
    if es.len() > 0 {
        assert(es[0].0 != k);
        assert forall|i: int| 0 <= i < es.len() - 1 implies #[trigger] es.drop_first()[i].0 != k by {
            assert(es.drop_first()[i] == es[i + 1]);
        }
        lemma_assoc_none(es.drop_first(), k);
    }
}

pub proof fn lemma_assoc_some<V>(es: Seq<(Symbol, V)>, k: Symbol)
    requires
        assoc(es, k) is Some,
    ensures
        exists|i: int| 0 <= i < es.len() && #[trigger] es[i].0 == k && es[i].1 == assoc(es, k).unwrap(),
    decreases es.len(),
{
    if es[0].0 != k {
        lemma_assoc_some(es.drop_first(), k);
        let i = choose|i: int| 0 <= i < es.len() - 1 && #[trigger] es.drop_first()[i].0 == k && es.drop_first()[i].1
            == assoc(es, k).unwrap();
        assert(es[i + 1] == es.drop_first()[i]);
    } else {
        assert(es[0].0 == k);
    }
}

pub proof fn lemma_decl_lookup_assoc(es: Seq<(Symbol, ItemId)>, k: Symbol)
    ensures
        decl_lookup(es, k) == assoc(es, k),
    decreases es.len(),
{
    if es.len() > 0 && es[0].0 != k {
        lemma_decl_lookup_assoc(es.drop_first(), k);
    }
}

/// Sets the entry for `k` to `v`, replacing the entry there is.
pub fn assoc_insert<V>(es: &mut Vec<(Symbol, V)>, k: Symbol, v: V)
    requires
        keys_unique(old(es)@),
    ensures
        keys_unique(final(es)@),
        forall|s: Symbol| #[trigger] assoc(final(es)@, s) == if s == k {
            Some(v)
        } else {
            assoc(old(es)@, s)
        },
{
    let mut i: usize = 0;
    while i < es.len()
        invariant
            i <= es@.len(),
            es@ == old(es)@,
            forall|j: int| 0 <= j < i ==> (#[trigger] es@[j]).0 != k,
        ensures
            i <= es@.len(),
            es@ == old(es)@,
            forall|j: int| 0 <= j < i ==> (#[trigger] es@[j]).0 != k,
            i < es@.len() ==> es@[i as int].0 == k,
        decreases es.len() - i,
    {
        if es[i].0 == k {
            break;
        }
        i = i + 1;
    }
    let ghost before = es@;
    if i < es.len() {
        es.set(i, (k, v));
        proof {
            assert(es@ == before.update(i as int, (k, v)));
            assert(keys_unique(es@)) by {
                assert forall|a: int, b: int| 0 <= a < es@.len() && 0 <= b < es@.len() && a != b implies #[trigger] es@[a].0
                    != #[trigger] es@[b].0 by {
                    assert(es@[a].0 == before[a].0);
                    assert(es@[b].0 == before[b].0);
                }
            }
            assert forall|s: Symbol| #[trigger] assoc(es@, s) == if s == k {
                Some(v)
            } else {
                assoc(before, s)
            } by {
                if s == k {
                    lemma_assoc_at(es@, i as int);
                } else if assoc(before, s) is Some {
                    lemma_assoc_some(before, s);
                    let j = choose|j: int| 0 <= j < before.len() && #[trigger] before[j].0 == s && before[j].1 == assoc(
                        before,
                        s,
                    ).unwrap();
                    assert(es@[j] == before[j]);
                    lemma_assoc_at(es@, j);
                } else {
                    assert forall|j: int| 0 <= j < es@.len() implies #[trigger] es@[j].0 != s by {
                        if es@[j].0 == s {
                            assert(before[j].0 == s);
                            lemma_assoc_at(before, j);
                        }
                    }
                    lemma_assoc_none(es@, s);
                }
            }
        }
    } else {
        es.push((k, v));
        proof {
            assert(keys_unique(es@)) by {
                assert forall|a: int, b: int| 0 <= a < es@.len() && 0 <= b < es@.len() && a != b implies #[trigger] es@[a].0
                    != #[trigger] es@[b].0 by {
                    if a < before.len() {
                        assert(es@[a] == before[a]);
                    }
                    if b < before.len() {
                        assert(es@[b] == before[b]);
                    }
                }
            }
            assert forall|s: Symbol| #[trigger] assoc(es@, s) == if s == k {
                Some(v)
            } else {
                assoc(before, s)
            } by {
                if s == k {
                    lemma_assoc_at(es@, before.len() as int);
                } else if assoc(before, s) is Some {
                    lemma_assoc_some(before, s);
                    let j = choose|j: int| 0 <= j < before.len() && #[trigger] before[j].0 == s && before[j].1 == assoc(
                        before,
                        s,
                    ).unwrap();
                    assert(es@[j] == before[j]);
                    lemma_assoc_at(es@, j);
                } else {
                    assert forall|j: int| 0 <= j < es@.len() implies #[trigger] es@[j].0 != s by {
                        if j < before.len() && es@[j].0 == s {
                            assert(es@[j] == before[j]);
                            lemma_assoc_at(before, j);
                        }
                    }
                    lemma_assoc_none(es@, s);
                }
            }
        }
    }
}

/// The top-level items among `ids`, each name to its last item.
pub open spec fn top_decls(items: Seq<ItemData>, ids: Seq<ItemId>) -> Map<Symbol, ItemId>
    decreases ids.len(),
{
    if ids.len() == 0 {
        Map::empty()
    } else {
        let m = top_decls(items, ids.drop_last());
        let d = items[ids.last().0 as int];
        if d.parent is None {
            m.insert(d.name, ids.last())
        } else {
            m
        }
    }
}

/// The item `d` belongs to an item named `key`.
pub open spec fn kid_of(items: Seq<ItemData>, d: ItemData, key: Symbol) -> bool {
    d.parent matches Some(p) && items[p.0 as int].name == key
}

/// The items among `ids` that belong to an item named `key`, each name to its last item.
pub open spec fn kids_of(items: Seq<ItemData>, ids: Seq<ItemId>, key: Symbol) -> Map<Symbol, ItemId>
    decreases ids.len(),
{
    if ids.len() == 0 {
        Map::empty()
    } else {
        let m = kids_of(items, ids.drop_last(), key);
        let d = items[ids.last().0 as int];
        if kid_of(items, d, key) {
            m.insert(d.name, ids.last())
        } else {
            m
        }
    }
}

/// Some item among `ids` belongs to an item named `key`.
pub open spec fn has_kids(items: Seq<ItemData>, ids: Seq<ItemId>, key: Symbol) -> bool {
    exists|j: int| 0 <= j < ids.len() && kid_of(items, items[#[trigger] ids[j].0 as int], key)
}

/// `ids` and the parents of their items are items of `items`.
pub open spec fn ids_known(items: Seq<ItemData>, ids: Seq<ItemId>) -> bool {
    forall|j: int| 0 <= j < ids.len() ==> {
        &&& (#[trigger] ids[j].0 as int) < items.len()
        &&& items[ids[j].0 as int].parent matches Some(p) ==> (p.0 as int) < items.len()
    }
}

/// `ns` is the namespace of the items `ids`: their top-level items as
/// declarations, and for each name of an item with members, a child
/// namespace holding those members.
pub open spec fn is_local_namespace(items: Seq<ItemData>, ids: Seq<ItemId>, ns: Namespace) -> bool {
    &&& forall|s: Symbol| #[trigger] decl_lookup(ns.decls@, s) == map_get(top_decls(items, ids), s)
    &&& forall|s: Symbol| match #[trigger] child_index(ns.children@, s) {
        Some(i) => {
            &&& has_kids(items, ids, s)
            &&& ns.children@[i].1.children@.len() == 0
            &&& forall|t: Symbol| #[trigger] decl_lookup(ns.children@[i].1.decls@, t) == map_get(kids_of(items, ids, s), t)
        },
        None => !has_kids(items, ids, s),
    }
}

/// The namespace of the items of `tree`: its top-level items, and for each
/// item with members a child namespace of them. A later item of the same
/// name replaces an earlier one.
pub fn local_namespace(items: &Vec<ItemData>, tree: &ItemTree) -> (r: Namespace)
    requires
        ids_known(items@, tree.items@),
    ensures
        is_local_namespace(items@, tree.items@, r),
        keys_unique(r.decls@),
        keys_unique(r.children@),
{
    let ids = &tree.items;
    let mut decls: Vec<(Symbol, ItemId)> = Vec::new();
    let mut j: usize = 0;
    while j < ids.len()
        invariant
            j <= ids@.len(),
            ids_known(items@, ids@),
            keys_unique(decls@),
            forall|s: Symbol| #[trigger] assoc(decls@, s) == map_get(top_decls(items@, ids@.take(j as int)), s),
        decreases ids.len() - j,
    {
        let id = ids[j];
        let d = items[id.0 as usize];
        proof {
            assert(ids@.take(j + 1).drop_last() =~= ids@.take(j as int));
            assert(ids@.take(j + 1).last() == id);
        }
        if d.parent.is_none() {
            assoc_insert(&mut decls, d.name, id);
        }
        j = j + 1;
    }
    let mut keys: Vec<Symbol> = Vec::new();
    j = 0;
    while j < ids.len()
        invariant
            j <= ids@.len(),
            ids_known(items@, ids@),
            forall|a: int, b: int| 0 <= a < keys@.len() && 0 <= b < keys@.len() && a != b ==> #[trigger] keys@[a]
                != #[trigger] keys@[b],
            forall|s: Symbol| #[trigger] keys@.contains(s) <==> has_kids(items@, ids@.take(j as int), s),
        decreases ids.len() - j,
    {
        let id = ids[j];
        let d = items[id.0 as usize];
        let ghost before = keys@;
        match d.parent {
            Some(p) => {
                let key = items[p.0 as usize].name;
                let mut found = false;
                let mut k: usize = 0;
                while k < keys.len()
                    invariant
                        k <= keys@.len(),
                        keys@ == before,
                        found <==> exists|x: int| 0 <= x < k && keys@[x] == key,
                    decreases keys.len() - k,
                {
                    if keys[k].0 == key.0 {
                        found = true;
                    }
                    k = k + 1;
                }
                if !found {
                    keys.push(key);
                }
            },
            None => {},
        }
        proof {
            let t = ids@.take(j + 1);
            assert(t.drop_last() =~= ids@.take(j as int));
            assert(t[j as int] == id);
            assert forall|s: Symbol| #[trigger] keys@.contains(s) <==> has_kids(items@, t, s) by {
                if has_kids(items@, t, s) {
                    let x = choose|x: int| 0 <= x < t.len() && kid_of(items@, items@[#[trigger] t[x].0 as int], s);
                    if x < j {
                        assert(ids@.take(j as int)[x] == t[x]);
                        assert(has_kids(items@, ids@.take(j as int), s));
                        assert(before.contains(s));
                        let y = choose|y: int| 0 <= y < before.len() && before[y] == s;
                        assert(keys@[y] == s);
                    } else {
                        assert(kid_of(items@, d, s));
                        if !before.contains(s) {
                            assert(keys@[keys@.len() - 1] == s);
                        } else {
                            let y = choose|y: int| 0 <= y < before.len() && before[y] == s;
                            assert(keys@[y] == s);
                        }
                    }
                }
                if keys@.contains(s) {
                    let y = choose|y: int| 0 <= y < keys@.len() && keys@[y] == s;
                    if y < before.len() {
                        assert(before[y] == s);
                        assert(before.contains(s));
                        let x = choose|x: int| 0 <= x < ids@.take(j as int).len() && kid_of(
                            items@,
                            items@[#[trigger] ids@.take(j as int)[x].0 as int],
                            s,
                        );
                        assert(t[x] == ids@.take(j as int)[x]);
                    } else {
                        assert(kid_of(items@, items@[t[j as int].0 as int], s));
                    }
                }
            }
        }
        j = j + 1;
    }
    proof {
        assert(ids@.take(ids@.len() as int) =~= ids@);
    }
    let mut children: Vec<(Symbol, Namespace)> = Vec::new();
    let mut c: usize = 0;
    while c < keys.len()
        invariant
            c <= keys@.len(),
            ids_known(items@, ids@),
            children@.len() == c,
            forall|x: int| 0 <= x < c ==> {
                &&& (#[trigger] children@[x]).0 == keys@[x]
                &&& children@[x].1.children@.len() == 0
                &&& forall|t: Symbol| #[trigger] decl_lookup(children@[x].1.decls@, t) == map_get(
                    kids_of(items@, ids@, keys@[x]),
                    t,
                )
            },
        decreases keys.len() - c,
    {
        let key = keys[c];
        let mut group: Vec<(Symbol, ItemId)> = Vec::new();
        let mut j: usize = 0;
        while j < ids.len()
            invariant
                j <= ids@.len(),
                ids_known(items@, ids@),
                keys_unique(group@),
                forall|s: Symbol| #[trigger] assoc(group@, s) == map_get(kids_of(items@, ids@.take(j as int), key), s),
            decreases ids.len() - j,
        {
            let id = ids[j];
            let d = items[id.0 as usize];
            proof {
                assert(ids@.take(j + 1).drop_last() =~= ids@.take(j as int));
                assert(ids@.take(j + 1).last() == id);
            }
            match d.parent {
                Some(p) => {
                    if items[p.0 as usize].name.0 == key.0 {
                        assoc_insert(&mut group, d.name, id);
                    }
                },
                None => {},
            }
            j = j + 1;
        }
        proof {
            assert(ids@.take(ids@.len() as int) =~= ids@);
            assert forall|t: Symbol| #[trigger] decl_lookup(group@, t) == map_get(kids_of(items@, ids@, key), t) by {
                lemma_decl_lookup_assoc(group@, t);
            }
        }
        children.push((key, Namespace { decls: group, children: Vec::new() }));
        c = c + 1;
    }
    let r = Namespace { decls, children };
    proof {
        assert(keys_unique(r.children@)) by {
            assert forall|a: int, b: int| 0 <= a < r.children@.len() && 0 <= b < r.children@.len() && a != b implies #[trigger] r.children@[a].0
                != #[trigger] r.children@[b].0 by {
                assert(r.children@[a].0 == keys@[a]);
                assert(r.children@[b].0 == keys@[b]);
            }
        }
        assert forall|s: Symbol| #[trigger] decl_lookup(r.decls@, s) == map_get(top_decls(items@, ids@), s) by {
            lemma_decl_lookup_assoc(r.decls@, s);
        }
        assert forall|s: Symbol| match #[trigger] child_index(r.children@, s) {
            Some(i) => {
                &&& has_kids(items@, ids@, s)
                &&& r.children@[i].1.children@.len() == 0
                &&& forall|t: Symbol| #[trigger] decl_lookup(r.children@[i].1.decls@, t) == map_get(kids_of(items@, ids@, s), t)
            },
            None => !has_kids(items@, ids@, s),
        } by {
            lemma_child_index(r.children@, s);
            match child_index(r.children@, s) {
                Some(i) => {
                    assert(keys@[i] == s);
                    assert(keys@.contains(s));
                },
                None => {
                    if has_kids(items@, ids@, s) {
                        assert(keys@.contains(s));
                        let y = choose|y: int| 0 <= y < keys@.len() && keys@[y] == s;
                        assert(r.children@[y].0 == s);
                    }
                },
            }
        }
    }
    r
}


/// The module path of the file at `path` in a program rooted at `root`: the
/// directories of its path relative to the root, then its stem.
pub open spec fn module_path_text(root: Seq<char>, path: Seq<char>) -> Option<Seq<Seq<char>>> {
    match relative_to(path, root) {
        None => None,
        Some(rel) => match stem_of(rel) {
            None => None,
            Some(stem) => Some(
                match parent_of(rel) {
                    Some(p) => components_of(p),
                    None => Seq::empty(),
                }.push(stem),
            ),
        },
    }
}

/// Every symbol of `syms` is one of the first `n` of a table.
pub open spec fn syms_below(syms: Seq<Symbol>, n: nat) -> bool {
    forall|k: int| 0 <= k < syms.len() ==> ((#[trigger] syms[k]).0 as nat) < n
}

/// The module path of the file at `path` in a program rooted at `root`, its
/// segments interned in `table`.
pub fn file_module_path(table: &mut SymbolTable, root: &str, path: &str) -> (r: Option<Vec<Symbol>>)
    requires
        old(table).wf(),
    ensures
        final(table).wf(),
        table_grows(old(table)@, final(table)@),
        r matches Some(v) ==> syms_below(v@, final(table)@.len()) && module_path_text(root@, path@) == Some(
            symbol_texts(final(table)@, v@),
        ),
        module_path_text(root@, path@) is None ==> r is None,
        (module_path_text(root@, path@) matches Some(t) && old(table)@.len() + t.len() + 1 < u32::MAX) ==> r is Some,
        (module_path_text(root@, path@) is Some && r is None) ==> !has_room(final(table)@),
{
    let rel = match strip_prefix(path, root) {
        Some(r) => r,
        None => return None,
    };
    let stem = match file_stem(rel.as_str()) {
        Some(s) => s,
        None => return None,
    };
    let comps: Vec<String> = match parent(rel.as_str()) {
        Some(p) => path_components(p.as_str()),
        None => Vec::new(),
    };
    let ghost texts = match parent_of(rel@) {
        Some(p) => components_of(p),
        None => Seq::<Seq<char>>::empty(),
    };
    assert(comps@.len() == texts.len());
    assert(module_path_text(root@, path@) == Some(texts.push(stem@)));
    let mut segs: Vec<Symbol> = Vec::new();
    let mut i: usize = 0;
    let ghost t0 = table@;
    while i < comps.len()
        invariant
            i <= comps@.len(),
            comps@.len() == texts.len(),
            forall|k: int| 0 <= k < comps@.len() ==> (#[trigger] comps@[k])@ == texts[k],
            table.wf(),
            table_grows(t0, table@),
            t0 == old(table)@,
            table@.len() <= t0.len() + i,
            syms_below(segs@, table@.len()),
            symbol_texts(table@, segs@) == texts.take(i as int),
            module_path_text(root@, path@) == Some(texts.push(stem@)),
        decreases comps.len() - i,
    {
        let ghost tb = table@;
        let ghost sb = segs@;
        let s = match intern(table, comps[i].as_str()) {
            Some(s) => s,
            None => return None,
        };
        segs.push(s);
        proof {
            lemma_symbol_texts_grow(tb, table@, sb);
            assert(symbol_texts(table@, segs@) =~= symbol_texts(table@, sb).push(texts[i as int]));
            assert(texts.take(i + 1) =~= texts.take(i as int).push(texts[i as int]));
        }
        i = i + 1;
    }
    let ghost tb = table@;
    let ghost sb = segs@;
    let s = match intern(table, stem.as_str()) {
        Some(s) => s,
        None => return None,
    };
    segs.push(s);
    proof {
        lemma_symbol_texts_grow(tb, table@, sb);
        assert(texts.take(texts.len() as int) =~= texts);
        assert(symbol_texts(table@, segs@) =~= texts.push(stem@));
    }
    Some(segs)
}

/// The file of the first entry of `entries` at module path `p`.
pub open spec fn module_lookup(entries: Seq<(Vec<Symbol>, u32)>, p: Seq<Symbol>) -> Option<u32>
    decreases entries.len(),
{
    if entries.len() == 0 {
        None
    } else if entries[0].0@ == p {
        Some(entries[0].1)
    } else {
        module_lookup(entries.drop_first(), p)
    }
}

/// The file of the last of `files` whose module path is `t`.
pub open spec fn last_module_file(root: Seq<char>, files: Seq<(u32, String)>, t: Seq<Seq<char>>) -> Option<u32>
    decreases files.len(),
{
    if files.len() == 0 {
        None
    } else if module_path_text(root, files.last().1@) == Some(t) {
        Some(files.last().0)
    } else {
        last_module_file(root, files.drop_last(), t)
    }
}

/// The files of a program by module path.
#[derive(Debug)]
pub struct ModuleMap {
    pub entries: Vec<(Vec<Symbol>, u32)>,
}

/// What a module map holds: distinct paths of known symbols, each the path
/// of the last file with that path, and every file with a path present.
pub open spec fn maps_modules(
    names: Seq<Seq<char>>,
    root: Seq<char>,
    files: Seq<(u32, String)>,
    entries: Seq<(Vec<Symbol>, u32)>,
) -> bool {
    &&& forall|a: int, b: int|
        0 <= a < entries.len() && 0 <= b < entries.len() && a != b ==> (#[trigger] entries[a]).0@ != (#[trigger] entries[b]).0@
    &&& forall|k: int| 0 <= k < entries.len() ==> syms_below((#[trigger] entries[k]).0@, names.len())
    &&& forall|k: int| 0 <= k < entries.len() ==> last_module_file(root, files, symbol_texts(names, (#[trigger] entries[k]).0@))
        == Some(entries[k].1)
    &&& forall|i: int| 0 <= i < files.len() ==> (module_path_text(root, (#[trigger] files[i]).1@) matches Some(t) ==> exists|k: int|
        0 <= k < entries.len() && symbol_texts(names, #[trigger] entries[k].0@) == t)
}

proof fn lemma_texts_inject(names: Seq<Seq<char>>, a: Seq<Symbol>, b: Seq<Symbol>)
    requires
        forall|i: int, j: int|
            0 <= i < names.len() && 0 <= j < names.len() && i != j ==> #[trigger] names[i] != #[trigger] names[j],
        syms_below(a, names.len()),
        syms_below(b, names.len()),
        symbol_texts(names, a) == symbol_texts(names, b),
    ensures
        a == b,
{
    assert(a.len() == symbol_texts(names, a).len());
    assert forall|k: int| 0 <= k < a.len() implies a[k] == b[k] by {
        assert(symbol_texts(names, a)[k] == names[a[k].0 as int]);
        assert(symbol_texts(names, b)[k] == names[b[k].0 as int]);
    }
    assert(a =~= b);
}

/// The files of the program rooted at `root` by module path; a later file
/// with the same path replaces an earlier one. Paths are interned in `table`.
pub fn module_map(table: &mut SymbolTable, root: &str, files: &Vec<(u32, String)>) -> (r: ModuleMap)
    requires
        old(table).wf(),
    ensures
        final(table).wf(),
        table_grows(old(table)@, final(table)@),
        forall|a: int, b: int|
            0 <= a < r.entries@.len() && 0 <= b < r.entries@.len() && a != b ==> (#[trigger] r.entries@[a]).0@
                != (#[trigger] r.entries@[b]).0@,
        has_room(final(table)@) ==> maps_modules(final(table)@, root@, files@, r.entries@),
{
    let mut entries: Vec<(Vec<Symbol>, u32)> = Vec::new();
    let mut i: usize = 0;
    while i < files.len()
        invariant
            i <= files@.len(),
            table.wf(),
            table_grows(old(table)@, table@),
            forall|a: int, b: int|
                0 <= a < entries@.len() && 0 <= b < entries@.len() && a != b ==> (#[trigger] entries@[a]).0@
                    != (#[trigger] entries@[b]).0@,
            forall|k: int| 0 <= k < entries@.len() ==> syms_below((#[trigger] entries@[k]).0@, table@.len()),
            has_room(table@) ==> maps_modules(table@, root@, files@.take(i as int), entries@),
        decreases files.len() - i,
    {
        let ghost tb = table@;
        let ghost eb = entries@;
        let file = files[i].0;
        let p = file_module_path(table, root, files[i].1.as_str());
        let ghost fs = files@.take(i + 1);
        proof {
            assert(fs.drop_last() =~= files@.take(i as int));
            assert(fs.last() == files@[i as int]);
            assert forall|k: int| 0 <= k < eb.len() implies syms_below((#[trigger] eb[k]).0@, table@.len()) && symbol_texts(
                table@,
                eb[k].0@,
            ) == symbol_texts(tb, eb[k].0@) by {
                lemma_symbol_texts_grow(tb, table@, eb[k].0@);
            }
        }
        match p {
            Some(p) => {
                let mut k: usize = 0;
                while k < entries.len()
                    invariant
                        k <= entries@.len(),
                        entries@ == eb,
                        forall|x: int| 0 <= x < k ==> (#[trigger] entries@[x]).0@ != p@,
                    ensures
                        k <= entries@.len(),
                        entries@ == eb,
                        forall|x: int| 0 <= x < k ==> (#[trigger] entries@[x]).0@ != p@,
                        k < entries@.len() ==> entries@[k as int].0@ == p@,
                    decreases entries.len() - k,
                {
                    if crate::namespace::same_path(entries[k].0.as_slice(), p.as_slice()) {
                        break;
                    }
                    k = k + 1;
                }
                let ghost pv = p@;
                let ghost t = symbol_texts(table@, pv);
                if k < entries.len() {
                    entries.set(k, (p, file));
                } else {
                    entries.push((p, file));
                }
                proof {
                    assert forall|a: int, b: int|
                        0 <= a < entries@.len() && 0 <= b < entries@.len() && a != b implies (#[trigger] entries@[a]).0@
                            != (#[trigger] entries@[b]).0@ by {
                        if a != k && b != k {
                            assert(entries@[a] == eb[a]);
                            assert(entries@[b] == eb[b]);
                        } else if a == k {
                            if b < eb.len() {
                                assert(entries@[b] == eb[b]);
                            }
                        } else {
                            if a < eb.len() {
                                assert(entries@[a] == eb[a]);
                            }
                        }
                    }
                    assert forall|x: int| 0 <= x < entries@.len() implies syms_below((#[trigger] entries@[x]).0@, table@.len()) by {
                        if x != k {
                            assert(entries@[x] == eb[x]);
                        }
                    }
                    if has_room(table@) {
                        assert(has_room(tb));
                        assert(maps_modules(tb, root@, files@.take(i as int), eb));
                        assert(module_path_text(root@, files@[i as int].1@) == Some(t));
                        assert(last_module_file(root@, fs, t) == Some(file));
                        assert forall|x: int| 0 <= x < entries@.len() implies last_module_file(
                            root@,
                            fs,
                            symbol_texts(table@, (#[trigger] entries@[x]).0@),
                        ) == Some(entries@[x].1) by {
                            if x != k {
                                assert(entries@[x] == eb[x]);
                                if symbol_texts(table@, eb[x].0@) == t {
                                    lemma_texts_inject(table@, eb[x].0@, pv);
                                }
                                assert(last_module_file(root@, fs, symbol_texts(table@, eb[x].0@)) == last_module_file(
                                    root@,
                                    files@.take(i as int),
                                    symbol_texts(table@, eb[x].0@),
                                ));
                            }
                        }
                        assert forall|j: int| 0 <= j < fs.len() implies (module_path_text(root@, (#[trigger] fs[j]).1@) matches Some(u)
                            ==> exists|x: int| 0 <= x < entries@.len() && symbol_texts(table@, #[trigger] entries@[x].0@) == u) by {
                            if j < i {
                                assert(fs[j] == files@.take(i as int)[j]);
                                if let Some(u) = module_path_text(root@, fs[j].1@) {
                                    let x = choose|x: int| 0 <= x < eb.len() && symbol_texts(tb, #[trigger] eb[x].0@) == u;
                                    if x == k {
                                        assert(symbol_texts(table@, entries@[x].0@) == t);
                                        assert(eb[x].0@ == pv);
                                    } else {
                                        assert(entries@[x] == eb[x]);
                                    }
                                    assert(symbol_texts(table@, entries@[x].0@) == u);
                                }
                            } else {
                                assert(symbol_texts(table@, entries@[k as int].0@) == t);
                            }
                        }
                    }
                }
            },
            None => {
                proof {
                    if has_room(table@) {
                        assert(has_room(tb));
                        assert(module_path_text(root@, files@[i as int].1@) is None);
                        assert forall|x: int| 0 <= x < entries@.len() implies last_module_file(
                            root@,
                            fs,
                            symbol_texts(table@, (#[trigger] entries@[x]).0@),
                        ) == Some(entries@[x].1) by {
                            assert(last_module_file(root@, fs, symbol_texts(table@, entries@[x].0@)) == last_module_file(
                                root@,
                                files@.take(i as int),
                                symbol_texts(table@, entries@[x].0@),
                            ));
                        }
                        assert forall|j: int| 0 <= j < fs.len() implies (module_path_text(root@, (#[trigger] fs[j]).1@) matches Some(u)
                            ==> exists|x: int| 0 <= x < entries@.len() && symbol_texts(table@, #[trigger] entries@[x].0@) == u) by {
                            if j < i {
                                assert(fs[j] == files@.take(i as int)[j]);
                            }
                        }
                    }
                }
            },
        }
        i = i + 1;
    }
    proof {
        assert(files@.take(files@.len() as int) =~= files@);
    }
    ModuleMap { entries }
}

/// How an import resolves: to a declaration of a module, with the file that
/// declares it, or to a whole module, by its file.
#[derive(Debug, Clone, Copy, PartialEq, Eq, Structural)]
pub enum Resolution {
    Item(ItemId, u32),
    Module(u32),
}

/// A resolved import: a declaration, with the members it has as a child
/// namespace, or the namespace of a whole module.
#[derive(Debug)]
pub enum Resolved {
    Item { item: ItemId, child: Option<Namespace> },
    Module(Namespace),
}

/// How `import` resolves against the module map `modules`: a declaration of
/// the module at its path, else the module at its path and name.
pub open spec fn spec_resolve_import(
    items: Seq<ItemData>,
    trees: Seq<ItemTree>,
    modules: Option<Seq<(Vec<Symbol>, u32)>>,
    import: Import,
) -> Option<Resolution> {
    match modules {
        None => None,
        Some(es) => {
            let direct = if import.module@.len() > 0 {
                match module_lookup(es, import.module@) {
                    Some(f) => if top_decls(items, trees[f as int].items@).contains_key(import.name) {
                        Some(Resolution::Item(top_decls(items, trees[f as int].items@)[import.name], f))
                    } else {
                        None
                    },
                    None => None,
                }
            } else {
                None
            };
            match direct {
                Some(r) => Some(r),
                None => match module_lookup(es, import.module@.push(import.name)) {
                    Some(f) => Some(Resolution::Module(f)),
                    None => None,
                },
            }
        },
    }
}

/// `child` holds the members of the items named `name` among `ids`, if any.
pub open spec fn members_as_child(items: Seq<ItemData>, ids: Seq<ItemId>, name: Symbol, child: Option<Namespace>) -> bool {
    match child {
        Some(c) => {
            &&& has_kids(items, ids, name)
            &&& c.children@.len() == 0
            &&& forall|t: Symbol| #[trigger] decl_lookup(c.decls@, t) == map_get(kids_of(items, ids, name), t)
        },
        None => !has_kids(items, ids, name),
    }
}

/// The trees of the program's files are over known items, and the module
/// map names only files that have a tree.
pub open spec fn program_known(items: Seq<ItemData>, trees: Seq<ItemTree>, modules: Option<Seq<(Vec<Symbol>, u32)>>) -> bool {
    &&& forall|f: int| 0 <= f < trees.len() ==> ids_known(items, (#[trigger] trees[f]).items@)
    &&& modules matches Some(es) ==> forall|k: int| 0 <= k < es.len() ==> ((#[trigger] es[k]).1 as int) < trees.len()
}

proof fn lemma_module_lookup_known(es: Seq<(Vec<Symbol>, u32)>, p: Seq<Symbol>, n: int)
    requires
        forall|k: int| 0 <= k < es.len() ==> ((#[trigger] es[k]).1 as int) < n,
    ensures
        module_lookup(es, p) matches Some(f) ==> (f as int) < n,
    decreases es.len(),
{
    if es.len() > 0 && es[0].0@ != p {
        assert forall|k: int| 0 <= k < es.len() - 1 implies ((#[trigger] es.drop_first()[k]).1 as int) < n by {
            assert(es.drop_first()[k] == es[k + 1]);
        }
        lemma_module_lookup_known(es.drop_first(), p, n);
    }
}

/// The file of the module at path `p`.
pub fn lookup_module(modules: &ModuleMap, p: &[Symbol]) -> (r: Option<u32>)
    ensures
        r == module_lookup(modules.entries@, p@),
{
    let mut i: usize = 0;
    proof {
        assert(modules.entries@.skip(0) =~= modules.entries@);
    }
    while i < modules.entries.len()
        invariant
            i <= modules.entries@.len(),
            module_lookup(modules.entries@, p@) == module_lookup(modules.entries@.skip(i as int), p@),
        decreases modules.entries.len() - i,
    {
        if crate::namespace::same_path(modules.entries[i].0.as_slice(), p) {
            return Some(modules.entries[i].1);
        }
        proof {
            assert(modules.entries@.skip(i as int).drop_first() =~= modules.entries@.skip(i + 1));
        }
        i = i + 1;
    }
    None
}

proof fn lemma_child_index_first(children: Seq<(Symbol, Namespace)>, s: Symbol, i: int)
    requires
        0 <= i < children.len(),
        children[i].0 == s,
        forall|k: int| 0 <= k < i ==> (#[trigger] children[k]).0 != s,
    ensures
        child_index(children, s) == Some(i),
    decreases i,
{
    if i > 0 {
        assert(children[0].0 != s);
        assert forall|k: int| 0 <= k < i - 1 implies (#[trigger] children.drop_first()[k]).0 != s by {
            assert(children.drop_first()[k] == children[k + 1]);
        }
        assert(children.drop_first()[i - 1] == children[i]);
        lemma_child_index_first(children.drop_first(), s, i - 1);
    }
}

/// The position of the child named `s`.
fn child_position(ns: &Namespace, s: Symbol) -> (r: Option<usize>)
    ensures
        match child_index(ns.children@, s) {
            Some(i) => r matches Some(k) && k as int == i,
            None => r is None,
        },
{
    let mut i: usize = 0;
    proof {
        lemma_child_index(ns.children@, s);
    }
    while i < ns.children.len()
        invariant
            i <= ns.children@.len(),
            forall|k: int| 0 <= k < i ==> (#[trigger] ns.children@[k]).0 != s,
            child_index(ns.children@, s) matches Some(j) ==> i <= j < ns.children@.len() && ns.children@[j].0 == s,
            child_index(ns.children@, s) is None ==> forall|k: int| 0 <= k < ns.children@.len() ==> (#[trigger] ns.children@[k]).0 != s,
        decreases ns.children.len() - i,
    {
        if ns.children[i].0.0 == s.0 {
            proof {
                assert(ns.children@[i as int].0 == s);
                lemma_child_index_first(ns.children@, s, i as int);
            }
            return Some(i);
        }
        i = i + 1;
    }
    None
}

/// Resolves `import` against the module map: a declaration of the module at
/// its path, with that declaration's members, else the whole module at its
/// path and name.
pub fn resolve_import(
    items: &Vec<ItemData>,
    trees: &Vec<ItemTree>,
    modules: Option<&ModuleMap>,
    import: &Import,
) -> (r: Option<Resolved>)
    requires
        program_known(items@, trees@, match modules {
            Some(m) => Some(m.entries@),
            None => None,
        }),
    ensures
        match spec_resolve_import(items@, trees@, match modules {
            Some(m) => Some(m.entries@),
            None => None,
        }, *import) {
            None => r is None,
            Some(Resolution::Item(id, f)) => r matches Some(Resolved::Item { item, child }) && item == id
                && members_as_child(items@, trees@[f as int].items@, import.name, child),
            Some(Resolution::Module(f)) => r matches Some(Resolved::Module(ns)) && is_local_namespace(
                items@,
                trees@[f as int].items@,
                ns,
            ) && keys_unique(ns.decls@) && keys_unique(ns.children@),
        },
{
    let modules = match modules {
        Some(m) => m,
        None => return None,
    };
    if import.module.len() > 0 {
        proof {
            lemma_module_lookup_known(modules.entries@, import.module@, trees@.len() as int);
        }
        match lookup_module(modules, import.module.as_slice()) {
            Some(target) => {
                let mut ns = local_namespace(items, &trees[target as usize]);
                proof {
                    lemma_decl_lookup_assoc(ns.decls@, import.name);
                    lemma_decl_lookup_assoc(ns.decls@, import.name);
                }
                match ns.decl(import.name) {
                    Some(item) => {
                        let ghost ns0 = ns;
                        let ghost ids = trees@[target as int].items@;
                        proof {
                            lemma_child_index(ns.children@, import.name);
                            assert(decl_lookup(ns0.decls@, import.name) == map_get(top_decls(items@, ids), import.name));
                            match child_index(ns0.children@, import.name) {
                                Some(j) => {
                                    assert(has_kids(items@, ids, import.name));
                                    assert(ns0.children@[j].1.children@.len() == 0);
                                },
                                None => {
                                    assert(!has_kids(items@, ids, import.name));
                                },
                            }
                        }
                        let child = match child_position(&ns, import.name) {
                            Some(i) => {
                                let ghost before = ns.children@;
                                let c = ns.children.remove(i);
                                proof {
                                    assert(c == before[i as int]);
                                    assert(before == ns0.children@);
                                    assert(child_index(ns0.children@, import.name) == Some(i as int));
                                    assert(has_kids(items@, ids, import.name));
                                    assert(c.1.children@.len() == 0);
                                    assert forall|t: Symbol| #[trigger] decl_lookup(c.1.decls@, t) == map_get(
                                        kids_of(items@, ids, import.name),
                                        t,
                                    ) by {
                                        assert(decl_lookup(ns0.children@[i as int].1.decls@, t) == map_get(
                                            kids_of(items@, ids, import.name),
                                            t,
                                        ));
                                    }
                                    assert(members_as_child(items@, ids, import.name, Some(c.1)));
                                }
                                Some(c.1)
                            },
                            None => None,
                        };
                        proof {
                            assert(top_decls(items@, ids).contains_key(import.name));
                            assert(item == top_decls(items@, ids)[import.name]);
                            assert(module_lookup(modules.entries@, import.module@) == Some(target));
                            assert(spec_resolve_import(items@, trees@, Some(modules.entries@), *import) == Some(Resolution::Item(item, target)));
                            assert(members_as_child(items@, ids, import.name, child));
                        }
                        return Some(Resolved::Item { item, child });
                    },
                    None => {},
                }
            },
            None => {},
        }
    }
    let mut full: Vec<Symbol> = Vec::new();
    let mut k: usize = 0;
    while k < import.module.len()
        invariant
            k <= import.module@.len(),
            full@ == import.module@.take(k as int),
        decreases import.module.len() - k,
    {
        full.push(import.module[k]);
        proof {
            assert(import.module@.take(k + 1) =~= import.module@.take(k as int).push(import.module@[k as int]));
        }
        k = k + 1;
    }
    full.push(import.name);
    proof {
        assert(import.module@.take(import.module@.len() as int) =~= import.module@);
        assert(full@ =~= import.module@.push(import.name));
        lemma_module_lookup_known(modules.entries@, full@, trees@.len() as int);
    }
    match lookup_module(modules, full.as_slice()) {
        Some(target) => Some(Resolved::Module(local_namespace(items, &trees[target as usize]))),
        None => None,
    }
}

/// The declarations `base` after the imports `imports`: each import that
/// resolves to a declaration binds its name to it, in order.
pub open spec fn import_decls(
    items: Seq<ItemData>,
    trees: Seq<ItemTree>,
    modules: Option<Seq<(Vec<Symbol>, u32)>>,
    imports: Seq<Import>,
    base: Map<Symbol, ItemId>,
) -> Map<Symbol, ItemId>
    decreases imports.len(),
{
    if imports.len() == 0 {
        base
    } else {
        let m = import_decls(items, trees, modules, imports.drop_last(), base);
        match spec_resolve_import(items, trees, modules, imports.last()) {
            Some(Resolution::Item(id, _)) => m.insert(imports.last().name, id),
            _ => m,
        }
    }
}

/// The names that the imports `imports` bring in as child namespaces: a
/// declaration with members, or a whole module.
pub open spec fn import_children(
    items: Seq<ItemData>,
    trees: Seq<ItemTree>,
    modules: Option<Seq<(Vec<Symbol>, u32)>>,
    imports: Seq<Import>,
) -> Set<Symbol>
    decreases imports.len(),
{
    if imports.len() == 0 {
        Set::empty()
    } else {
        let s = import_children(items, trees, modules, imports.drop_last());
        let i = imports.last();
        match spec_resolve_import(items, trees, modules, i) {
            Some(Resolution::Item(_, f)) => if has_kids(items, trees[f as int].items@, i.name) {
                s.insert(i.name)
            } else {
                s
            },
            Some(Resolution::Module(_)) => s.insert(i.name),
            None => s,
        }
    }
}

/// The imports among `imports` that do not resolve, in order.
pub open spec fn unresolved_imports(
    items: Seq<ItemData>,
    trees: Seq<ItemTree>,
    modules: Option<Seq<(Vec<Symbol>, u32)>>,
    imports: Seq<Import>,
) -> Seq<Import>
    decreases imports.len(),
{
    if imports.len() == 0 {
        Seq::empty()
    } else {
        let u = unresolved_imports(items, trees, modules, imports.drop_last());
        if spec_resolve_import(items, trees, modules, imports.last()) is None {
            u.push(imports.last())
        } else {
            u
        }
    }
}

/// `d` reports that the import `i` of `file` does not resolve.
pub open spec fn unresolved_import_diag(d: Diagnostic, names: Seq<Seq<char>>, file: u32, i: Import) -> bool {
    &&& diag_head(d, file, TextRange { start: i.start, end: i.end }, "unresolved import `"@ + spec_import_display(names, i) + "`"@)
    &&& d.primary.message is None
    &&& d.secondaries@.len() == 0
    &&& d.notes@.len() == 0
    &&& d.helps@.len() == 0
}

proof fn lemma_child_index_assoc(children: Seq<(Symbol, Namespace)>, s: Symbol)
    ensures
        (child_index(children, s) is Some) == (assoc(children, s) is Some),
    decreases children.len(),
{
    if children.len() > 0 && children[0].0 != s {
        lemma_child_index_assoc(children.drop_first(), s);
    }
}

/// The namespace of `file`: its own declarations, then what each of its
/// imports brings in, in order, replacing what was there under that name. An
/// import that does not resolve is reported.
pub fn def_map(
    items: &Vec<ItemData>,
    trees: &Vec<ItemTree>,
    table: &SymbolTable,
    file: u32,
    imports: &Vec<Import>,
    modules: Option<&ModuleMap>,
) -> (r: (Namespace, Vec<Diagnostic>))
    requires
        (file as int) < trees@.len(),
        program_known(items@, trees@, match modules {
            Some(m) => Some(m.entries@),
            None => None,
        }),
        forall|j: int| 0 <= j < imports@.len() ==> import_known(table@.len(), #[trigger] imports@[j]),
        forall|j: int| 0 <= j < imports@.len() ==> (#[trigger] imports@[j]).start <= imports@[j].end,
    ensures
        ({
            let mods = match modules {
                Some(m) => Some(m.entries@),
                None => None,
            };
            let ids = trees@[file as int].items@;
            let u = unresolved_imports(items@, trees@, mods, imports@);
            &&& forall|s: Symbol| #[trigger] decl_lookup(r.0.decls@, s) == map_get(
                import_decls(items@, trees@, mods, imports@, top_decls(items@, ids)),
                s,
            )
            &&& forall|s: Symbol| (#[trigger] child_index(r.0.children@, s) is Some) == (has_kids(items@, ids, s)
                || import_children(items@, trees@, mods, imports@).contains(s))
            &&& r.1@.len() == u.len()
            &&& forall|k: int| 0 <= k < u.len() ==> unresolved_import_diag(#[trigger] r.1@[k], table@, file, u[k])
        }),
{
    let ghost mods = match modules {
        Some(m) => Some(m.entries@),
        None => None,
    };
    let ghost ids = trees@[file as int].items@;
    let local = local_namespace(items, &trees[file as usize]);
    let mut decls = local.decls;
    let mut children = local.children;
    let mut diagnostics: Vec<Diagnostic> = Vec::new();
    let mut i: usize = 0;
    proof {
        assert forall|s: Symbol| #[trigger] assoc(decls@, s) == map_get(
            import_decls(items@, trees@, mods, imports@.take(0), top_decls(items@, ids)),
            s,
        ) by {
            lemma_decl_lookup_assoc(decls@, s);
        }
        assert forall|s: Symbol| (#[trigger] assoc(children@, s) is Some) == (has_kids(items@, ids, s)
            || import_children(items@, trees@, mods, imports@.take(0)).contains(s)) by {
            lemma_child_index_assoc(children@, s);
        }
    }
    while i < imports.len()
        invariant
            i <= imports@.len(),
            program_known(items@, trees@, mods),
            mods == match modules {
                Some(m) => Some(m.entries@),
                None => None::<Seq<(Vec<Symbol>, u32)>>,
            },
            forall|j: int| 0 <= j < imports@.len() ==> import_known(table@.len(), #[trigger] imports@[j]),
            forall|j: int| 0 <= j < imports@.len() ==> (#[trigger] imports@[j]).start <= imports@[j].end,
            keys_unique(decls@),
            keys_unique(children@),
            forall|s: Symbol| #[trigger] assoc(decls@, s) == map_get(
                import_decls(items@, trees@, mods, imports@.take(i as int), top_decls(items@, ids)),
                s,
            ),
            forall|s: Symbol| (#[trigger] assoc(children@, s) is Some) == (has_kids(items@, ids, s)
                || import_children(items@, trees@, mods, imports@.take(i as int)).contains(s)),
            diagnostics@.len() == unresolved_imports(items@, trees@, mods, imports@.take(i as int)).len(),
            forall|k: int| 0 <= k < diagnostics@.len() ==> unresolved_import_diag(
                #[trigger] diagnostics@[k],
                table@,
                file,
                unresolved_imports(items@, trees@, mods, imports@.take(i as int))[k],
            ),
        decreases imports.len() - i,
    {
        let import = &imports[i];
        let ghost pre = imports@.take(i as int);
        let ghost post = imports@.take(i + 1);
        proof {
            assert(post.drop_last() =~= pre);
            assert(post.last() == *import);
        }
        let ghost db = decls@;
        let ghost cb = children@;
        match resolve_import(items, trees, modules, import) {
            Some(Resolved::Item { item, child }) => {
                assoc_insert(&mut decls, import.name, item);
                match child {
                    Some(c) => assoc_insert(&mut children, import.name, c),
                    None => {},
                }
                proof {
                    assert forall|s: Symbol| (#[trigger] assoc(children@, s) is Some) == (has_kids(items@, ids, s)
                        || import_children(items@, trees@, mods, post).contains(s)) by {
                        assert(assoc(cb, s) is Some == (has_kids(items@, ids, s) || import_children(items@, trees@, mods, pre).contains(s)));
                    }
                }
            },
            Some(Resolved::Module(n)) => {
                assoc_insert(&mut children, import.name, n);
                proof {
                    assert forall|s: Symbol| (#[trigger] assoc(children@, s) is Some) == (has_kids(items@, ids, s)
                        || import_children(items@, trees@, mods, post).contains(s)) by {
                        assert(assoc(cb, s) is Some == (has_kids(items@, ids, s) || import_children(items@, trees@, mods, pre).contains(s)));
                    }
                }
            },
            None => {
                let mut msg: Vec<char> = Vec::new();
                push_str(&mut msg, "unresolved import `");
                let shown = import_display(table, import);
                push_str(&mut msg, shown.as_str());
                push_str(&mut msg, "`");
                let m = string_from_chars(msg.as_slice());
                let d = Diagnostic::error(m.as_str(), file, TextRange::new(import.start, import.end)).build();
                let ghost dsb = diagnostics@;
                diagnostics.push(d);
                proof {
                    let u = unresolved_imports(items@, trees@, mods, post);
                    assert(u == unresolved_imports(items@, trees@, mods, pre).push(*import));
                    assert forall|k: int| 0 <= k < diagnostics@.len() implies unresolved_import_diag(
                        #[trigger] diagnostics@[k],
                        table@,
                        file,
                        u[k],
                    ) by {
                        if k < dsb.len() {
                            assert(diagnostics@[k] == dsb[k]);
                        }
                    }
                }
            },
        }
        i = i + 1;
    }
    proof {
        assert(imports@.take(imports@.len() as int) =~= imports@);
        assert forall|s: Symbol| #[trigger] decl_lookup(decls@, s) == map_get(
            import_decls(items@, trees@, mods, imports@, top_decls(items@, ids)),
            s,
        ) by {
            lemma_decl_lookup_assoc(decls@, s);
        }
        assert forall|s: Symbol| (#[trigger] child_index(children@, s) is Some) == (has_kids(items@, ids, s)
            || import_children(items@, trees@, mods, imports@).contains(s)) by {
            lemma_child_index_assoc(children@, s);
        }
    }
    (Namespace { decls, children }, diagnostics)
}
} // verus!
