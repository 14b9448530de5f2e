use lotus::ast::{
    Binder, BinderInfo as SurfaceInfo, ConstructorDecl, Decl, DefDecl, Expr, InductiveDecl, LiteralNode, Name,
    Stmt, Type,
};
use lotus::ctx::ElabCtx;
use lotus::decl::{debug_file, def_body, elaborate_decl, elaborate_file, inductive_data, signature};
use lotus::def_map::{def_map, file_module_path, local_namespace, lookup_module, module_map, resolve_import, Resolved};
use lotus::diagnostics::TextRange;
use lotus::env::{Env, ItemData};
use lotus::ids::{ItemId, ItemKind, Symbol, SymbolTable};
use lotus::import::{file_imports, Import, ImportGroup, ImportTarget};
use lotus::item_tree::ItemTree;
use lotus::lang_items::{LangItem, LanguageItems};
use lotus::literals::Literal;
use lotus::lower::{close_binders, intern, qualify, BinderForm};
use lotus::namespace::{Namespace, Qualified};
use lotus::report::{Expected, ExpectedReason};
use lotus::term::{BinderInfo, FreeBinder, Level, Term};
use lotus::ids::Unique;

fn r(a: u32, b: u32) -> TextRange {
    TextRange { start: a, end: b }
}

fn name(text: &str) -> Name {
    Name { path: vec![], member: Some(text.to_string()), range: r(0, text.len() as u32) }
}

fn ty_name(text: &str) -> Type {
    Type::Name(name(text))
}

fn one() -> Level {
    Level::Succ(Box::new(Level::Zero))
}

/// `Nat`, `zero`, `id`, `Int`, `Str`, `Unit` and `unit`, with the lang items of the last four.
fn fixture(table: &mut SymbolTable) -> (Env, LanguageItems, Namespace) {
    let mut env = Env::new();
    let names = ["Nat", "zero", "id", "Int", "Str", "Unit", "unit"];
    let mut decls = Vec::new();
    for (i, n) in names.iter().enumerate() {
        let s = Symbol::from_str(table, n);
        env.items.push(ItemData { file: 0, name: s, ast_index: i as u32, kind: ItemKind::Def, parent: None });
        decls.push((s, ItemId(i as u32)));
    }
    let nat = Term::Const(ItemId(0));
    env.signatures.push(Term::Sort(one()));
    env.signatures.push(nat.copy());
    env.signatures.push(Term::pi(BinderInfo::Explicit, nat.copy(), nat.copy()));
    env.signatures.push(Term::Sort(one()));
    env.signatures.push(Term::Sort(one()));
    env.signatures.push(Term::Sort(one()));
    env.signatures.push(Term::Const(ItemId(5)));
    for _ in 0..7 {
        env.bodies.push(None);
    }
    let mut lang = LanguageItems::new();
    lang.insert(LangItem::Int32, ItemId(3));
    lang.insert(LangItem::Str, ItemId(4));
    lang.insert(LangItem::Unit, ItemId(5));
    lang.insert(LangItem::UnitConstructor, ItemId(6));
    let ns = Namespace { decls, children: vec![] };
    (env, lang, ns)
}

fn num(text: &str) -> Expr {
    Expr::Literal(LiteralNode::Number { text: Some(text.to_string()), range: r(0, 1) })
}

fn app(f: Expr, x: Expr) -> Expr {
    Expr::App { func: Some(Box::new(f)), arg: Some(Box::new(x)), range: r(0, 9) }
}

#[test]
fn named_types_resolve_or_bind() {
    let mut table = SymbolTable::new();
    let (env, lang, ns) = fixture(&mut table);
    let mut cx = ElabCtx::new(&env, &lang, &ns, ItemId(0), 0);
    assert_eq!(cx.lower_type(&mut table, &ty_name("Nat")), Term::Const(ItemId(0)));
    assert_eq!(cx.lower_type(&mut table, &ty_name("Type")), Term::Sort(one()));
    let a = cx.lower_type(&mut table, &ty_name("a"));
    assert!(matches!(a, Term::FVar(_)));
    assert_eq!(cx.autobound.len(), 1);
    assert!(cx.diagnostics.is_empty());
    let bad = cx.lower_type(&mut table, &ty_name("Foo"));
    assert!(matches!(bad, Term::Error(_)));
    assert_eq!(cx.diagnostics.len(), 1);
    assert_eq!(cx.diagnostics[0].message, "unresolved name 'Foo'");
}

#[test]
fn misspelt_names_get_a_suggestion() {
    let mut table = SymbolTable::new();
    let (env, lang, ns) = fixture(&mut table);
    let mut cx = ElabCtx::new(&env, &lang, &ns, ItemId(0), 0);
    let (t, ty) = cx.resolve_name(&mut table, &name("Nta"));
    assert!(matches!(t, Term::Error(_)) && matches!(ty, Term::Error(_)));
    assert_eq!(cx.diagnostics[0].message, "unresolved name 'Nta'");
    assert_eq!(cx.diagnostics[0].helps, vec!["did you mean `Nat`".to_string()]);
    let (t, ty) = cx.resolve_name(&mut table, &name("zero"));
    assert_eq!(t, Term::Const(ItemId(1)));
    assert_eq!(ty, Term::Const(ItemId(0)));
}

#[test]
fn similar_names_follow_child_namespaces() {
    let mut table = SymbolTable::new();
    let foo = Symbol::from_str(&mut table, "Foo");
    let bar = Symbol::from_str(&mut table, "bar");
    let fo = Symbol::from_str(&mut table, "Fo");
    let child = Namespace { decls: vec![(bar, ItemId(1))], children: vec![] };
    let ns = Namespace { decls: vec![], children: vec![(foo, child)] };
    let q = Qualified { path: vec![fo], member: bar };
    let s = ns.similar(&table, &q).expect("a suggestion");
    assert_eq!(s.path, vec![foo]);
    assert_eq!(s.member, bar);
    let exact = Qualified { path: vec![foo], member: bar };
    assert!(ns.similar(&table, &exact).is_none());
}

#[test]
fn function_types_are_lowered() {
    let mut table = SymbolTable::new();
    let (env, lang, ns) = fixture(&mut table);
    let mut cx = ElabCtx::new(&env, &lang, &ns, ItemId(0), 0);
    let nat = Term::Const(ItemId(0));
    let arrow = Type::Arrow { dom: Some(Box::new(ty_name("Nat"))), cod: Some(Box::new(ty_name("Nat"))), range: r(0, 8) };
    assert_eq!(cx.lower_type(&mut table, &arrow), Term::pi(BinderInfo::Explicit, nat.copy(), nat.copy()));
    let binder = Binder { info: SurfaceInfo::Implicit, name: Some("x".to_string()), ty: Some(Box::new(ty_name("Nat"))), range: r(0, 7) };
    let pi = Type::Pi { binder: Some(Box::new(binder)), ty: Some(Box::new(ty_name("x"))), range: r(0, 12) };
    assert_eq!(cx.lower_type(&mut table, &pi), Term::pi(BinderInfo::Implicit, nat.copy(), Term::BVar(0)));
    let broken = Type::Paren { inner: None, range: r(0, 2) };
    assert!(matches!(cx.lower_type(&mut table, &broken), Term::Error(_)));
}

#[test]
fn closing_binders_makes_functions() {
    let x = Unique(3);
    let y = Unique(4);
    let nat = Term::Const(ItemId(0));
    let bs = vec![
        FreeBinder { fvar: x, info: BinderInfo::Explicit, ty: nat.copy() },
        FreeBinder { fvar: y, info: BinderInfo::Implicit, ty: nat.copy() },
    ];
    let body = Term::app(Term::FVar(x), Term::FVar(y));
    let closed = close_binders(&bs, body, BinderForm::Lam);
    let expected = Term::lam(
        BinderInfo::Explicit,
        nat.copy(),
        Term::lam(BinderInfo::Implicit, nat.copy(), Term::app(Term::BVar(1), Term::BVar(0))),
    );
    assert_eq!(closed, expected);
}

#[test]
fn literals_are_inferred_with_their_lang_item() {
    let mut table = SymbolTable::new();
    let (env, lang, ns) = fixture(&mut table);
    let mut cx = ElabCtx::new(&env, &lang, &ns, ItemId(0), 0);
    let (t, ty) = cx.infer(&mut table, &num("42"));
    assert!(matches!(t, Term::Lit(Literal::Numeric(_))));
    assert_eq!(ty, Term::Const(ItemId(3)));
    let s = Expr::Literal(LiteralNode::Str { text: Some("\"hi\"".to_string()), range: r(0, 4) });
    let (t, ty) = cx.infer(&mut table, &s);
    assert_eq!(t, Term::Lit(Literal::Text("hi".to_string())));
    assert_eq!(ty, Term::Const(ItemId(4)));
    let paren = Expr::Paren { inner: None, range: r(0, 2) };
    let (t, ty) = cx.infer(&mut table, &paren);
    assert!(matches!(t, Term::Error(_)) && matches!(ty, Term::Error(_)));
    assert!(cx.diagnostics.is_empty());
}

#[test]
fn blocks_bind_and_return() {
    let mut table = SymbolTable::new();
    let (env, lang, ns) = fixture(&mut table);
    let mut cx = ElabCtx::new(&env, &lang, &ns, ItemId(0), 0);
    let empty = Expr::Block { stmts: vec![], range: r(0, 2) };
    let (t, ty) = cx.infer(&mut table, &empty);
    assert_eq!(t, Term::Const(ItemId(6)));
    assert_eq!(ty, Term::Const(ItemId(5)));
    let block = Expr::Block {
        stmts: vec![
            Stmt::Let { name: Some("x".to_string()), expr: Some(num("1")), range: r(0, 10) },
            Stmt::Return { expr: Some(Expr::Name(name("x"))), range: r(11, 20) },
        ],
        range: r(0, 21),
    };
    let (t, ty) = cx.infer(&mut table, &block);
    match t {
        Term::Let(let_ty, value, body) => {
            assert_eq!(*let_ty, Term::Const(ItemId(3)));
            assert!(matches!(*value, Term::Lit(_)));
            assert_eq!(*body, Term::BVar(0));
        },
        other => panic!("expected a let, got {:?}", other),
    }
    assert_eq!(ty, Term::Const(ItemId(3)));
    assert!(cx.diagnostics.is_empty());
    assert_eq!(cx.lctx.len(), 0);
}

#[test]
fn mutating_an_unknown_variable_is_reported() {
    let mut table = SymbolTable::new();
    let (env, lang, ns) = fixture(&mut table);
    let mut cx = ElabCtx::new(&env, &lang, &ns, ItemId(0), 0);
    let block = Expr::Block {
        stmts: vec![Stmt::Mutation { name: Some("y".to_string()), expr: Some(num("1")), range: r(3, 9) }],
        range: r(0, 10),
    };
    let (t, ty) = cx.infer(&mut table, &block);
    assert!(matches!(t, Term::Error(_)) && matches!(ty, Term::Error(_)));
    assert_eq!(cx.diagnostics.len(), 1);
    assert_eq!(cx.diagnostics[0].message, "cannot mutate undefined variable `y`");
    assert_eq!(cx.diagnostics[0].primary.range, r(3, 9));
}

#[test]
fn missing_unit_is_reported() {
    let mut table = SymbolTable::new();
    let (env, _, ns) = fixture(&mut table);
    let lang = LanguageItems::new();
    let mut cx = ElabCtx::new(&env, &lang, &ns, ItemId(0), 0);
    let (t, ty) = cx.unit_value(&table, r(0, 1), None);
    assert!(matches!(t, Term::Error(_)) && matches!(ty, Term::Error(_)));
    assert_eq!(cx.diagnostics.len(), 2);
    assert_eq!(cx.diagnostics[0].message, "missing language item: type.unit");
    assert_eq!(cx.diagnostics[0].helps, vec!["define or import an item annotated with `@[lang \"type.unit\"]`".to_string()]);
    assert_eq!(cx.diagnostics[1].message, "missing language item: constructor.unit");
}

#[test]
fn applications_check_their_arguments() {
    let mut table = SymbolTable::new();
    let (env, lang, ns) = fixture(&mut table);
    let mut cx = ElabCtx::new(&env, &lang, &ns, ItemId(0), 0);
    let call = app(Expr::Name(name("id")), Expr::Name(name("zero")));
    let (t, ty) = cx.infer(&mut table, &call);
    assert_eq!(t, Term::app(Term::Const(ItemId(2)), Term::Const(ItemId(1))));
    assert_eq!(ty, Term::Const(ItemId(0)));
    assert!(cx.diagnostics.is_empty());
    let bad = app(Expr::Name(name("zero")), Expr::Name(name("zero")));
    let (t, _) = cx.infer(&mut table, &bad);
    assert!(matches!(t, Term::Error(_)));
    assert_eq!(cx.diagnostics.len(), 1);
    assert_eq!(cx.diagnostics[0].message, "expected a function, found `Nat`");
    let wrong = app(Expr::Name(name("id")), num("3"));
    let _ = cx.infer(&mut table, &wrong);
    assert_eq!(cx.diagnostics.len(), 2);
    assert!(cx.diagnostics[1].message.starts_with("type mismatch"));
}

#[test]
fn checking_unifies_with_the_expected_type() {
    let mut table = SymbolTable::new();
    let (env, lang, ns) = fixture(&mut table);
    let mut cx = ElabCtx::new(&env, &lang, &ns, ItemId(0), 0);
    let expected = Expected::new(Term::Const(ItemId(0)), ExpectedReason::Unspecified);
    let t = cx.check(&mut table, &Expr::Name(name("zero")), &expected);
    assert_eq!(t, Term::Const(ItemId(1)));
    assert!(cx.diagnostics.is_empty());
    let t = cx.check(&mut table, &num("1"), &expected);
    assert!(matches!(t, Term::Lit(_)));
    assert_eq!(cx.diagnostics.len(), 1);
}

#[test]
fn explicit_function_types_are_split() {
    let mut table = SymbolTable::new();
    let (env, lang, ns) = fixture(&mut table);
    let cx = ElabCtx::new(&env, &lang, &ns, ItemId(0), 0);
    let nat = Term::Const(ItemId(0));
    let f = Term::pi(BinderInfo::Explicit, nat.copy(), Term::BVar(0));
    let (d, c) = cx.ensure_explicit_function_type(&table, &f, r(0, 1)).ok().expect("a function type");
    assert_eq!(d, nat);
    assert_eq!(c, Term::BVar(0));
    let inst = Term::pi(BinderInfo::InstanceImplicit, nat.copy(), nat.copy());
    let e = cx.ensure_explicit_function_type(&table, &inst, r(0, 1)).err().expect("an error");
    assert_eq!(e.inner.message, "instance implicit arguments are not supported yet");
}

fn nat_decls() -> Vec<Decl> {
    let x = Binder { info: SurfaceInfo::Explicit, name: Some("x".to_string()), ty: Some(Box::new(ty_name("Nat"))), range: r(4, 11) };
    let id = DefDecl {
        binders: vec![x],
        return_type: Some(ty_name("Nat")),
        body: Some(Expr::Name(name("x"))),
        range: r(0, 20),
    };
    let bare = DefDecl { binders: vec![], return_type: None, body: None, range: r(21, 30) };
    let ctor = ConstructorDecl { binders: vec![], return_type: Some(ty_name("Nat")), range: r(40, 50) };
    let ind = InductiveDecl {
        params: vec![Binder { info: SurfaceInfo::Explicit, name: Some("a".to_string()), ty: None, range: r(35, 38) }],
        return_type: Some(ty_name("Type")),
        constructors: vec![ctor],
        range: r(31, 51),
    };
    vec![Decl::Def(id), Decl::Def(bare), Decl::Inductive(ind)]
}

/// Items of `nat_decls`: `f`, `g`, `Nat` and its constructor `z`.
fn decl_env(table: &mut SymbolTable) -> (Env, Namespace) {
    let mut env = Env::new();
    let f = Symbol::from_str(table, "f");
    let g = Symbol::from_str(table, "g");
    let nat = Symbol::from_str(table, "Nat");
    let z = Symbol::from_str(table, "z");
    env.items.push(ItemData { file: 0, name: f, ast_index: 0, kind: ItemKind::Def, parent: None });
    env.items.push(ItemData { file: 0, name: g, ast_index: 1, kind: ItemKind::Def, parent: None });
    env.items.push(ItemData { file: 0, name: nat, ast_index: 2, kind: ItemKind::Inductive, parent: None });
    env.items.push(ItemData { file: 0, name: z, ast_index: 0, kind: ItemKind::Constructor, parent: Some(ItemId(2)) });
    for _ in 0..4 {
        env.bodies.push(None);
    }
    env.signatures.push(Term::pi(BinderInfo::Explicit, Term::Const(ItemId(2)), Term::Const(ItemId(2))));
    env.signatures.push(Term::Sort(Level::Zero));
    env.signatures.push(Term::Sort(one()));
    env.signatures.push(Term::Const(ItemId(2)));
    let ns = Namespace { decls: vec![(f, ItemId(0)), (g, ItemId(1)), (nat, ItemId(2))], children: vec![] };
    (env, ns)
}

#[test]
fn signatures_close_over_binders() {
    let mut table = SymbolTable::new();
    let (env, ns) = decl_env(&mut table);
    let lang = LanguageItems::new();
    let source = nat_decls();
    let nat = Term::Const(ItemId(2));
    let (sig, diags) = signature(&env, &lang, &ns, &mut table, ItemId(0), &source);
    assert_eq!(sig.ty, Term::pi(BinderInfo::Explicit, nat.copy(), nat.copy()));
    assert!(diags.is_empty());
    let (sig, diags) = signature(&env, &lang, &ns, &mut table, ItemId(1), &source);
    assert!(matches!(sig.ty, Term::Error(_)));
    assert!(diags.is_empty());
    let (sig, _) = signature(&env, &lang, &ns, &mut table, ItemId(2), &source);
    assert_eq!(sig.ty, Term::Sort(one()));
    let (sig, _) = signature(&env, &lang, &ns, &mut table, ItemId(3), &source);
    assert_eq!(sig.ty, nat);
}

#[test]
fn definition_bodies_are_checked() {
    let mut table = SymbolTable::new();
    let (env, ns) = decl_env(&mut table);
    let lang = LanguageItems::new();
    let source = nat_decls();
    let nat = Term::Const(ItemId(2));
    let (body, diags) = def_body(&env, &lang, &ns, &mut table, ItemId(0), &source);
    assert_eq!(body.expect("a body").value, Term::lam(BinderInfo::Explicit, nat.copy(), Term::BVar(0)));
    assert!(diags.is_empty());
    let (body, _) = def_body(&env, &lang, &ns, &mut table, ItemId(1), &source);
    assert!(matches!(body.expect("a body").value, Term::Sort(Level::MVar(_))));
    let (body, _) = def_body(&env, &lang, &ns, &mut table, ItemId(2), &source);
    assert!(body.is_none());
}

#[test]
fn inductives_list_params_and_constructors() {
    let mut table = SymbolTable::new();
    let (env, ns) = decl_env(&mut table);
    let lang = LanguageItems::new();
    let source = nat_decls();
    let (data, diags) = inductive_data(&env, &lang, &ns, &mut table, ItemId(2), &source);
    assert_eq!(data.num_params, 1);
    assert_eq!(data.binders.len(), 1);
    assert!(matches!(data.binders[0], Term::MVar(_)));
    assert_eq!(data.ctors, vec![ItemId(3)]);
    assert!(diags.is_empty());
}

#[test]
fn files_are_elaborated_and_dumped() {
    let mut table = SymbolTable::new();
    let (env, ns) = decl_env(&mut table);
    let lang = LanguageItems::new();
    let source = nat_decls();
    let item = elaborate_decl(&env, &lang, &ns, &mut table, ItemId(0), &source);
    assert!(item.def_body.is_some() && item.inductive_data.is_none());
    let items = elaborate_file(&env, &lang, &ns, &mut table, &source);
    assert_eq!(items.len(), 3);
    assert!(items[2].inductive_data.is_some());
    let dump = debug_file(&env, &table, &items);
    assert!(dump.starts_with("elaborated module (3 items)\n\ndef f [#0] : "));
    assert!(dump.contains("\n  := "));
    assert!(dump.contains("inductive Nat [#2] : "));
}

#[test]
fn local_namespaces_group_constructors() {
    let mut table = SymbolTable::new();
    let (env, _) = decl_env(&mut table);
    let tree = ItemTree { items: vec![ItemId(0), ItemId(1), ItemId(2), ItemId(3)] };
    let ns = local_namespace(&env.items, &tree);
    let nat = env.items[2].name;
    let z = env.items[3].name;
    assert_eq!(ns.decl(nat), Some(ItemId(2)));
    assert_eq!(ns.decl(z), None);
    let child = ns.child(nat).expect("Nat's members");
    assert_eq!(child.decl(z), Some(ItemId(3)));
}

#[test]
fn module_paths_come_from_file_paths() {
    let mut table = SymbolTable::new();
    let p = file_module_path(&mut table, "/src", "/src/data/list.lt").expect("a module path");
    let texts: Vec<&str> = p.iter().map(|s| s.as_str(&table)).collect();
    assert_eq!(texts, vec!["data", "list"]);
    assert!(file_module_path(&mut table, "/src", "/elsewhere/x.lt").is_none());
    let files = vec![(0u32, "/src/main.lt".to_string()), (1u32, "/src/data/list.lt".to_string())];
    let map = module_map(&mut table, "/src", &files);
    assert_eq!(map.entries.len(), 2);
    let data = Symbol::from_str(&mut table, "data");
    let list = Symbol::from_str(&mut table, "list");
    assert_eq!(lookup_module(&map, &[data, list]), Some(1));
    assert_eq!(lookup_module(&map, &[list]), None);
}

#[test]
fn imports_resolve_to_items_or_modules() {
    let mut table = SymbolTable::new();
    let (env, _) = decl_env(&mut table);
    // File 0 holds the items; file 1 imports from it.
    let trees = vec![ItemTree { items: vec![ItemId(0), ItemId(1), ItemId(2), ItemId(3)] }, ItemTree { items: vec![] }];
    let lib = Symbol::from_str(&mut table, "lib");
    let map = lotus::def_map::ModuleMap { entries: vec![(vec![lib], 0)] };
    let nat = env.items[2].name;
    let missing = Symbol::from_str(&mut table, "missing");
    let item = Import { module: vec![lib], name: nat, start: 0, end: 8 };
    match resolve_import(&env.items, &trees, Some(&map), &item) {
        Some(Resolved::Item { item, child }) => {
            assert_eq!(item, ItemId(2));
            assert!(child.is_some());
        },
        _ => panic!("expected an item"),
    }
    let module = Import { module: vec![], name: lib, start: 9, end: 12 };
    assert!(matches!(resolve_import(&env.items, &trees, Some(&map), &module), Some(Resolved::Module(_))));
    let bad = Import { module: vec![lib], name: missing, start: 13, end: 24 };
    assert!(resolve_import(&env.items, &trees, Some(&map), &bad).is_none());
    assert!(resolve_import(&env.items, &trees, None, &item).is_none());
    let imports = vec![item, module, bad];
    let (ns, diags) = def_map(&env.items, &trees, &table, 1, &imports, Some(&map));
    assert_eq!(ns.decl(nat), Some(ItemId(2)));
    assert!(ns.child(nat).is_some());
    assert!(ns.child(lib).is_some());
    assert_eq!(diags.len(), 1);
    assert_eq!(diags[0].message, "unresolved import `lib::missing`");
    assert_eq!(diags[0].primary.range, r(13, 24));
}

#[test]
fn file_imports_flatten_groups() {
    let mut table = SymbolTable::new();
    let group = ImportGroup {
        path: vec![Some("a".to_string())],
        target: Some(ImportTarget::List(vec![
            ImportGroup { path: vec![], target: Some(ImportTarget::Identifier(Some("b".to_string()))), range: r(3, 4) },
            ImportGroup { path: vec![], target: Some(ImportTarget::Identifier(Some("c".to_string()))), range: r(6, 7) },
        ])),
        range: r(0, 8),
    };
    let source = vec![Decl::Import { group: Some(group), range: r(0, 9) }, Decl::Import { group: None, range: r(10, 16) }];
    let imports = file_imports(&mut table, &source);
    assert_eq!(imports.len(), 2);
    assert_eq!(imports[0].name.as_str(&table), "b");
    assert_eq!(imports[1].name.as_str(&table), "c");
    assert_eq!(imports[1].module.len(), 1);
}

#[test]
fn qualified_names_are_interned() {
    let mut table = SymbolTable::new();
    let n = Name { path: vec![Some("a".to_string()), None], member: Some("b".to_string()), range: r(0, 5) };
    let q = qualify(&mut table, &n).expect("room");
    assert_eq!(q.path.len(), 2);
    assert_eq!(q.path[1].as_str(&table), "<unknown>");
    assert_eq!(q.member.as_str(&table), "b");
    let s = intern(&mut table, "a").expect("room");
    assert_eq!(s, q.path[0]);
}
