use lotus::collect::file_diagnostics;
use lotus::debug::{term_text, write_level};
use lotus::decl::{gather_file_diagnostics, ElaboratedItem, Signature};
use lotus::diagnostics::{Diagnostic, Severity, TextRange};
use lotus::env::{Env, ItemData};
use lotus::ids::{ItemId, ItemKind, Symbol, SymbolTable, Unique};
use lotus::import::{collect_group, import_display, ImportGroup, ImportTarget};
use lotus::item_tree::{decl_symbol, item_tree, DeclHeader};
use lotus::lang_items::{file_lang_items, parse_lang_attr, Attribute, AttributeValue, ItemAttributes, LangItem};
use lotus::literals::{Literal, NumberLiteral, NumberSuffix, NumberValue};
use lotus::namespace::{best_match, Namespace};
use lotus::naming::is_autobindable;
use lotus::structure::{has_extension, Cli, Commands, Edition, IngestError, PathKind, Program, ProgramError};
use lotus::term::{BinderInfo, Level, Term};

fn one() -> Level {
    Level::Succ(Box::new(Level::Zero))
}

#[test]
fn levels_are_printed_with_counted_successors() {
    let table = SymbolTable::new();
    let mut out = Vec::new();
    write_level(&mut out, &table, &Level::Succ(Box::new(one())), 0);
    assert_eq!(out.iter().collect::<String>(), "2");
    let mut out = Vec::new();
    write_level(&mut out, &table, &Level::Zero, 0);
    assert_eq!(out.iter().collect::<String>(), "0");
    let mut out = Vec::new();
    let max = Level::Succ(Box::new(Level::Max(Box::new(Level::MVar(Unique(3))), Box::new(one()))));
    write_level(&mut out, &table, &max, 11);
    assert_eq!(out.iter().collect::<String>(), "(max ?u3 1 + 1)");
    let mut out = Vec::new();
    write_level(&mut out, &table, &Level::Succ(Box::new(Level::MVar(Unique(2)))), 0);
    assert_eq!(out.iter().collect::<String>(), "?u2+1");
}

#[test]
fn terms_are_printed_with_minimal_parentheses() {
    let mut table = SymbolTable::new();
    let mut env = Env::new();
    let name = Symbol::from_str(&mut table, "Nat");
    env.items.push(ItemData { file: 0, name, ast_index: 0, kind: ItemKind::Def, parent: None });
    let nat = Term::Const(ItemId(0));
    let t = Term::app(Term::app(Term::FVar(Unique(1)), nat.copy()), Term::app(Term::MVar(Unique(2)), Term::BVar(0)));
    assert_eq!(term_text(&env, &table, &t), "?f1 Nat (?m2 #0)");
    let f = Term::pi(BinderInfo::Implicit, Term::Sort(one()), Term::lam(BinderInfo::Explicit, nat.copy(), Term::BVar(0)));
    assert_eq!(term_text(&env, &table, &f), "{_ : Sort 1} -> λ (_ : Nat) => #0");
    let s = Term::sigma(BinderInfo::InstanceImplicit, nat.copy(), Term::let_(nat.copy(), Term::Const(ItemId(5)), Term::BVar(0)));
    assert_eq!(term_text(&env, &table, &s), "Σ [_ : Nat], let : Nat := <unknown> in #0");
    let strict = Term::app(nat.copy(), Term::pi(BinderInfo::StrictImplicit, nat.copy(), nat.copy()));
    assert_eq!(term_text(&env, &table, &strict), "Nat ({{_ : Nat}} -> Nat)");
    let lit = Term::Lit(Literal::Numeric(NumberLiteral {
        value: NumberValue::Float { numer: "7".to_string(), denom: "2".to_string() },
        suffix: Some(NumberSuffix::F64),
    }));
    assert_eq!(term_text(&env, &table, &lit), "7/2f64");
    let text = Term::Lit(Literal::Text("a\"b".to_string()));
    assert_eq!(term_text(&env, &table, &text), "\"a\\\"b\"");
}

#[test]
fn lang_item_names_round_trip() {
    let all = [
        LangItem::Boolean,
        LangItem::Int8,
        LangItem::Int16,
        LangItem::Int32,
        LangItem::Int64,
        LangItem::UInt8,
        LangItem::UInt16,
        LangItem::UInt32,
        LangItem::UInt64,
        LangItem::Float32,
        LangItem::Float64,
        LangItem::Str,
        LangItem::Unit,
        LangItem::UnitConstructor,
    ];
    for l in all {
        assert_eq!(LangItem::from_str(l.as_str()), Some(l));
    }
    assert_eq!(LangItem::Int32.as_str(), "type.int32");
    assert_eq!(LangItem::UnitConstructor.as_str(), "constructor.unit");
    assert_eq!(LangItem::from_str("type.int"), None);
}

fn attr(name: &str, value: Option<AttributeValue>) -> Attribute {
    Attribute { name: Some(name.to_string()), value, range: TextRange::new(2, 5) }
}

#[test]
fn lang_attributes() {
    let mut diags = Vec::new();
    let a = attr("lang", Some(AttributeValue::StringLit("\"type.unit\"".to_string())));
    assert_eq!(parse_lang_attr(0, &a, &mut diags), Some(LangItem::Unit));
    let b = attr("inline", Some(AttributeValue::StringLit("\"type.unit\"".to_string())));
    assert_eq!(parse_lang_attr(0, &b, &mut diags), None);
    let c = attr("lang", Some(AttributeValue::StringLit("type.unit".to_string())));
    assert_eq!(parse_lang_attr(0, &c, &mut diags), None);
    assert!(diags.is_empty());
    let d = attr("lang", Some(AttributeValue::Other));
    assert_eq!(parse_lang_attr(7, &d, &mut diags), None);
    assert_eq!(diags.len(), 1);
    assert_eq!(diags[0].message, "invalid lang item name");
    assert_eq!(diags[0].primary.file, 7);

    let items = vec![
        ItemAttributes { item: ItemId(0), attributes: vec![attr("lang", Some(AttributeValue::StringLit("\"type.int32\"".to_string())))] },
        ItemAttributes { item: ItemId(1), attributes: vec![attr("lang", Some(AttributeValue::StringLit("\"type.int32\"".to_string())))] },
        ItemAttributes { item: ItemId(2), attributes: vec![attr("lang", Some(AttributeValue::StringLit("\"type.str\"".to_string())))] },
    ];
    let mut diags = Vec::new();
    let found = file_lang_items(0, &items, &mut diags);
    assert_eq!(found.get(LangItem::Int32), Some(ItemId(1)));
    assert_eq!(found.get(LangItem::Str), Some(ItemId(2)));
    assert_eq!(found.get(LangItem::Unit), None);
    assert_eq!(found.len(), 2);
}

#[test]
fn autobindable_names() {
    assert!(is_autobindable("a"));
    assert!(is_autobindable("αβ"));
    assert!(!is_autobindable("A"));
    assert!(!is_autobindable("_x"));
    assert!(!is_autobindable(""));
}

#[test]
fn programs_from_paths() {
    let p = Program::from_path("src/main.lt".to_string(), None, PathKind::File, vec![]).unwrap();
    assert_eq!(p.name, "main");
    assert_eq!(p.root, "src");
    assert_eq!(p.main.as_deref(), Some("src/main.lt"));
    assert_eq!(p.files, vec!["src/main.lt".to_string()]);
    assert_eq!(p.edition, Edition::Lotus2026);
    let d = Program::from_path(
        "proj".to_string(),
        Some("demo".to_string()),
        PathKind::Directory,
        vec!["proj/b.lt".to_string(), "proj/a/z.lt".to_string(), "proj/a.lt".to_string()],
    )
    .unwrap();
    assert_eq!(d.name, "demo");
    assert_eq!(d.root, "proj");
    assert_eq!(d.main, None);
    assert_eq!(d.files, vec!["proj/a/z.lt".to_string(), "proj/a.lt".to_string(), "proj/b.lt".to_string()]);
    assert!(matches!(Program::from_path("/".to_string(), None, PathKind::Directory, vec![]), Err(ProgramError::InvalidPackageName)));
    assert!(matches!(Program::from_path("gone.lt".to_string(), None, PathKind::Neither, vec![]), Err(ProgramError::InvalidInput)));
    match Program::from_path("src/main.rs".to_string(), None, PathKind::File, vec![]) {
        Err(ProgramError::InvalidExtension(p)) => assert_eq!(p, "src/main.rs"),
        other => panic!("unexpected {:?}", other),
    }
    assert!(has_extension("x/y.lt"));
    assert!(!has_extension("x/y.rs"));
    assert!(!has_extension("lt"));
}

#[test]
fn error_messages() {
    assert_eq!(ProgramError::InvalidInput.message(), "Input path is not a file or directory");
    assert_eq!(ProgramError::InvalidExtension("a.rs".to_string()).message(), "File has invalid extension: a.rs");
    assert_eq!(ProgramError::InvalidPackageName.message(), "Could not infer name for package from directory name");
    assert_eq!(ProgramError::Io("denied".to_string()).message(), "IO error: denied");
    let e = IngestError::Io { path: "a.lt".to_string(), source: "missing".to_string() };
    assert_eq!(e.message(), "failed to read a.lt: missing");
}

#[test]
fn cli_file() {
    let c = Cli { command: Commands::Lower { source: "x.lt".to_string() } };
    assert_eq!(c.file(), "x.lt");
    let c = Cli { command: Commands::Parse { source: "p.lt".to_string() } };
    assert_eq!(c.file(), "p.lt");
}

#[test]
fn namespaces_resolve_and_suggest() {
    let mut table = SymbolTable::new();
    let list = Symbol::from_str(&mut table, "List");
    let map = Symbol::from_str(&mut table, "map");
    let maps = Symbol::from_str(&mut table, "mapx");
    let filter = Symbol::from_str(&mut table, "filter");
    let child = Namespace { decls: vec![(map, ItemId(1)), (filter, ItemId(2))], children: vec![] };
    let root = Namespace { decls: vec![(list, ItemId(0))], children: vec![(list, child)] };
    assert_eq!(root.resolve(&[], list), Some(ItemId(0)));
    assert_eq!(root.resolve(&[list], map), Some(ItemId(1)));
    assert_eq!(root.resolve(&[list], maps), None);
    assert_eq!(root.resolve(&[map], map), None);
    assert!(root.walk(&[list]).is_some());
    assert_eq!(best_match(&table, maps, &[filter, map]), Some(map));
    assert_eq!(best_match(&table, filter, &[list, map]), None);
}

#[test]
fn imports_are_flattened() {
    let mut table = SymbolTable::new();
    let group = ImportGroup {
        path: vec![Some("std".to_string())],
        target: Some(ImportTarget::List(vec![
            ImportGroup { path: vec![], target: Some(ImportTarget::Identifier(Some("io".to_string()))), range: TextRange::new(5, 7) },
            ImportGroup {
                path: vec![Some("num".to_string())],
                target: Some(ImportTarget::Identifier(Some("add".to_string()))),
                range: TextRange::new(9, 17),
            },
            ImportGroup { path: vec![None], target: Some(ImportTarget::Identifier(Some("lost".to_string()))), range: TextRange::new(18, 20) },
        ])),
        range: TextRange::new(0, 21),
    };
    let mut out = Vec::new();
    collect_group(&mut table, &group, &[], &mut out);
    assert_eq!(out.len(), 2);
    assert_eq!(import_display(&table, &out[0]), "std::io");
    assert_eq!(import_display(&table, &out[1]), "std::num::add");
    assert_eq!((out[1].start, out[1].end), (9, 17));
}

#[test]
fn item_trees_list_declarations_and_constructors() {
    let mut table = SymbolTable::new();
    let mut items = Vec::new();
    let decls = vec![
        DeclHeader::Import,
        DeclHeader::Def { ident: Some("f".to_string()) },
        DeclHeader::Inductive {
            ident: Some("Bool".to_string()),
            constructors: Some(vec![Some("true".to_string()), None, Some("false".to_string())]),
        },
        DeclHeader::Def { ident: None },
    ];
    let tree = item_tree(&mut table, &mut items, 4, &decls);
    assert_eq!(tree.items, vec![ItemId(0), ItemId(1), ItemId(2), ItemId(3)]);
    assert_eq!(items[0].name.as_str(&table), "f");
    assert_eq!(items[0].ast_index, 1);
    assert_eq!(items[1].kind, ItemKind::Inductive);
    assert_eq!(items[2].kind, ItemKind::Constructor);
    assert_eq!(items[2].parent, Some(ItemId(1)));
    assert_eq!(items[3].ast_index, 2);
    assert_eq!(items[3].name.as_str(&table), "false");
    assert!(items.iter().all(|i| i.file == 4));
    assert_eq!(decl_symbol(&mut table, None), None);
}

fn diag(file: u32, message: &str) -> Diagnostic {
    Diagnostic::error(message, file, TextRange::new(0, 1)).build()
}

#[test]
fn file_diagnostics_keep_each_once() {
    let groups = vec![vec![diag(1, "a"), diag(2, "b")], vec![diag(1, "a"), diag(1, "c")]];
    let out = file_diagnostics(1, &groups);
    let messages: Vec<&str> = out.iter().map(|d| d.message.as_str()).collect();
    assert_eq!(messages, vec!["a", "c"]);
    assert!(out.iter().all(|d| d.severity == Severity::Error));
}

#[test]
fn gathered_diagnostics_follow_the_compiler_order() {
    let item = |id: u32, ds: Vec<Diagnostic>| ElaboratedItem {
        id: ItemId(id),
        signature: Signature { ty: Term::Sort(Level::Zero) },
        def_body: None,
        inductive_data: None,
        diagnostics: ds,
    };
    let parse = vec![diag(1, "parse")];
    let def_map = vec![diag(2, "elsewhere"), diag(1, "import")];
    let lang = vec![diag(1, "lang")];
    let items = vec![item(0, vec![diag(1, "sig"), diag(1, "parse")]), item(1, vec![diag(1, "body")])];
    let out = gather_file_diagnostics(1, &parse, &def_map, &lang, &items);
    let messages: Vec<&str> = out.iter().map(|d| d.message.as_str()).collect();
    assert_eq!(messages, vec!["parse", "import", "lang", "sig", "body"]);
    let none = gather_file_diagnostics(3, &parse, &def_map, &lang, &items);
    assert!(none.is_empty());
}

#[test]
fn malformed_lang_attributes_are_reported_in_order() {
    let mut bad1 = attr("lang", Some(AttributeValue::Other));
    bad1.range = TextRange::new(1, 2);
    let mut bad2 = attr("lang", Some(AttributeValue::Other));
    bad2.range = TextRange::new(5, 9);
    let items = vec![
        ItemAttributes { item: ItemId(0), attributes: vec![bad1, attr("lang", Some(AttributeValue::StringLit("\"type.str\"".to_string())))] },
        ItemAttributes { item: ItemId(1), attributes: vec![attr("inline", Some(AttributeValue::Other)), bad2] },
    ];
    let mut diags = vec![diag(3, "earlier")];
    let found = file_lang_items(4, &items, &mut diags);
    assert_eq!(found.get(LangItem::Str), Some(ItemId(0)));
    assert_eq!(diags.len(), 3);
    assert_eq!(diags[0].message, "earlier");
    assert_eq!(diags[1].message, "invalid lang item name");
    assert_eq!(diags[1].primary.file, 4);
    assert_eq!(diags[1].primary.range, TextRange::new(1, 2));
    assert_eq!(diags[2].primary.range, TextRange::new(5, 9));
}

#[test]
fn equal_texts_intern_to_one_symbol() {
    let mut table = SymbolTable::new();
    let a = Symbol::from_str(&mut table, "a");
    let b = Symbol::from_str(&mut table, "b");
    let a2 = Symbol::from_str(&mut table, "a");
    assert_eq!(a, a2);
    assert_ne!(a, b);
    assert_eq!(table.len(), 2);
    assert_eq!(a.as_str(&table), "a");
}
