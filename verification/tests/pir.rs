use lotus::env::{Env, ItemData};
use lotus::ids::{ItemId, ItemKind, Symbol, SymbolTable, Unique};
use lotus::namespace::Namespace;
use lotus::nir::{write_file, write_type, NirItem, Type as NirType};
use lotus::pir::{lower_file, lower_item, lower_type, Type, TypeArg};
use lotus::term::{BinderInfo, Level, Term};

fn one() -> Level {
    Level::Succ(Box::new(Level::Zero))
}

/// `Nat : Type`, `List : Type -> Type` (one type parameter), `Opaque : Type`
/// (a definition without body), `z : Nat` (a constructor).
fn fixture(table: &mut SymbolTable) -> (Env, Vec<Vec<Term>>) {
    let mut env = Env::new();
    let mut params = Vec::new();
    let items = [
        ("Nat", ItemKind::Inductive, Term::Sort(one()), vec![]),
        ("List", ItemKind::Inductive, Term::Sort(one()), vec![Term::Sort(one())]),
        ("Opaque", ItemKind::Def, Term::Sort(one()), vec![]),
        ("z", ItemKind::Constructor, Term::Const(ItemId(0)), vec![]),
    ];
    for (i, (n, kind, sig, ps)) in items.into_iter().enumerate() {
        let name = Symbol::from_str(table, n);
        let parent = if kind == ItemKind::Constructor { Some(ItemId(0)) } else { None };
        env.items.push(ItemData { file: 0, name, ast_index: i as u32, kind, parent });
        env.signatures.push(sig);
        env.bodies.push(None);
        params.push(ps);
    }
    (env, params)
}

fn nat_adt() -> Type {
    Type::Adt { id: ItemId(0), args: vec![] }
}

#[test]
fn universes_and_constructors_have_no_runtime_type() {
    let mut table = SymbolTable::new();
    let (env, params) = fixture(&mut table);
    assert_eq!(lower_type(&env, &params, &table, &Term::Sort(Level::Zero)), None);
    assert_eq!(lower_type(&env, &params, &table, &Term::Const(ItemId(3))), None);
    assert_eq!(lower_type(&env, &params, &table, &Term::Const(ItemId(1))), None);
}

#[test]
fn inductives_become_adts() {
    let mut table = SymbolTable::new();
    let (env, params) = fixture(&mut table);
    assert_eq!(lower_type(&env, &params, &table, &Term::Const(ItemId(0))), Some(nat_adt()));
    let list_nat = Term::app(Term::Const(ItemId(1)), Term::Const(ItemId(0)));
    assert_eq!(
        lower_type(&env, &params, &table, &list_nat),
        Some(Type::Adt { id: ItemId(1), args: vec![TypeArg::Type(nat_adt())] })
    );
    let over = Term::app(Term::Const(ItemId(0)), Term::Const(ItemId(0)));
    assert_eq!(lower_type(&env, &params, &table, &over), Some(Type::Todo("overapplied inductive".to_string())));
}

#[test]
fn function_types_keep_runtime_parameters() {
    let mut table = SymbolTable::new();
    let (env, params) = fixture(&mut table);
    let f = Term::pi(BinderInfo::Explicit, Term::Const(ItemId(0)), Term::Const(ItemId(0)));
    assert_eq!(
        lower_type(&env, &params, &table, &f),
        Some(Type::Function { params: vec![nat_adt()], ret: Box::new(nat_adt()) })
    );
    let poly = Term::pi(BinderInfo::Implicit, Term::Sort(one()), Term::BVar(0));
    assert_eq!(lower_type(&env, &params, &table, &poly), Some(Type::Param(0)));
}

#[test]
fn what_is_not_handled_is_marked() {
    let mut table = SymbolTable::new();
    let (env, params) = fixture(&mut table);
    assert_eq!(lower_type(&env, &params, &table, &Term::Const(ItemId(2))), Some(Type::Todo("opaque def Opaque".to_string())));
    assert_eq!(lower_type(&env, &params, &table, &Term::FVar(Unique(3))), Some(Type::Todo("?f3".to_string())));
    assert_eq!(lower_type(&env, &params, &table, &Term::BVar(1)), Some(Type::Todo("unbound #1".to_string())));
}

#[test]
fn files_keep_items_with_runtime_types() {
    let mut table = SymbolTable::new();
    let (env, params) = fixture(&mut table);
    assert!(lower_item(&env, &params, &table, ItemId(0)).is_none());
    let ns = Namespace {
        decls: vec![(env.items[0].name, ItemId(0)), (env.items[3].name, ItemId(3))],
        children: vec![],
    };
    let file = lower_file(&env, &params, &table, &ns);
    assert_eq!(file.items.len(), 1);
    assert_eq!(file.items[0].item, ItemId(3));
    assert_eq!(file.items[0].ty, nat_adt());
}

#[test]
fn normalized_types_are_written_with_their_arguments() {
    let mut table = SymbolTable::new();
    let (env, _) = fixture(&mut table);
    let list_nat = NirType::Adt { id: ItemId(1), args: vec![NirType::Adt { id: ItemId(0), args: vec![] }] };
    let f = NirType::Function { params: vec![list_nat, NirType::Param(2)], ret: Box::new(NirType::Bool) };
    let mut out = Vec::new();
    write_type(&mut out, &env, &table, &f, 0);
    assert_eq!(out.iter().collect::<String>(), "fn(List<Nat>, T2) -> bool");
    let mut out = Vec::new();
    write_type(&mut out, &env, &table, &f, 1);
    assert_eq!(out.iter().collect::<String>(), "(fn(List<Nat>, T2) -> bool)");
    let items = vec![NirItem { item: ItemId(0), ty: NirType::Todo("x".to_string()) }];
    assert_eq!(write_file(&env, &table, &items), "nir module (1 items)\n\ninductive Nat [#0] : |todo x|\n");
}
