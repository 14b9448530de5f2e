use lotus::ctx::ElabCtx;
use lotus::diagnostics::{Severity, TextRange};
use lotus::env::{Env, ItemData};
use lotus::ids::{ItemId, ItemKind, Symbol, SymbolTable, Unique};
use lotus::infer::InferTermError;
use lotus::lang_items::{LangItem, LanguageItems};
use lotus::literals::{Literal, NumberLiteral, NumberValue};
use lotus::lower::LangCandidate;
use lotus::namespace::Namespace;
use lotus::reduce::{instantiate_many, whnf, whnf_spine};
use lotus::subst::{abstract_fvar, instantiate, shift};
use lotus::term::{uncurry, BinderInfo, Level, Term};
use lotus::unify::UnifyError;

fn sort(n: u32) -> Term {
    let mut l = Level::Zero;
    for _ in 0..n {
        l = Level::Succ(Box::new(l));
    }
    Term::Sort(l)
}

fn lam(ty: Term, body: Term) -> Term {
    Term::lam(BinderInfo::Explicit, ty, body)
}

fn pi(ty: Term, body: Term) -> Term {
    Term::pi(BinderInfo::Explicit, ty, body)
}

fn app(f: Term, x: Term) -> Term {
    Term::app(f, x)
}

/// An environment with `Nat : Type`, `zero : Nat`, and `id := λ (x : Nat) => x`.
fn env_with_nat(table: &mut SymbolTable) -> Env {
    let mut env = Env::new();
    let names = ["Nat", "zero", "id"];
    for (i, n) in names.iter().enumerate() {
        let name = Symbol::from_str(table, n);
        env.items.push(ItemData { file: 0, name, ast_index: i as u32, kind: ItemKind::Def, parent: None });
    }
    let nat = Term::Const(ItemId(0));
    env.signatures.push(sort(1));
    env.signatures.push(nat.copy());
    env.signatures.push(pi(nat.copy(), nat.copy()));
    env.bodies.push(None);
    env.bodies.push(None);
    env.bodies.push(Some(lam(nat.copy(), Term::BVar(0))));
    env
}

#[test]
fn substitution_round_trip() {
    let x = Unique(7);
    let t = app(Term::FVar(x), lam(sort(0), app(Term::BVar(0), Term::FVar(x))));
    let closed = abstract_fvar(&t, x);
    assert_eq!(closed, app(Term::BVar(0), lam(sort(0), app(Term::BVar(0), Term::BVar(1)))));
    assert_eq!(instantiate(&closed, &Term::FVar(x)), t);
}

#[test]
fn instantiate_shifts_under_binders() {
    let body = lam(sort(0), app(Term::BVar(1), Term::BVar(2)));
    let r = instantiate(&body, &Term::BVar(0));
    assert_eq!(r, lam(sort(0), app(Term::BVar(1), Term::BVar(1))));
    assert_eq!(shift(&Term::BVar(3), 2), Term::BVar(5));
    assert_eq!(shift(&Term::BVar(3), 0), Term::BVar(3));
}

#[test]
fn whnf_beta_and_delta() {
    let mut table = SymbolTable::new();
    let env = env_with_nat(&mut table);
    let zero = Term::Const(ItemId(1));
    let call = app(Term::Const(ItemId(2)), zero.copy());
    assert_eq!(whnf(&env, &call, 100), Some(zero.copy()));
    let beta = app(lam(sort(0), Term::BVar(0)), zero.copy());
    assert_eq!(whnf(&env, &beta, 100), Some(zero.copy()));
    let let_ = Term::let_(sort(0), zero.copy(), Term::BVar(0));
    assert_eq!(whnf(&env, &let_, 100), Some(zero.copy()));
    assert_eq!(whnf(&env, &call, 0), None);
    let spine = whnf_spine(&env, &app(app(Term::FVar(Unique(1)), zero.copy()), sort(0)), 10).unwrap();
    assert_eq!(spine.0, Term::FVar(Unique(1)));
    assert_eq!(spine.1, vec![zero.copy(), sort(0)]);
    let two_args = lam(sort(0), lam(sort(0), Term::BVar(1)));
    assert_eq!(instantiate_many(&env, &two_args, &[zero.copy(), sort(0)], 10), Some(zero.copy()));
}

#[test]
fn whnf_of_a_looping_definition_runs_out() {
    let mut table = SymbolTable::new();
    let mut env = Env::new();
    let name = Symbol::from_str(&mut table, "loop");
    env.items.push(ItemData { file: 0, name, ast_index: 0, kind: ItemKind::Def, parent: None });
    env.signatures.push(sort(1));
    env.bodies.push(Some(Term::Const(ItemId(0))));
    assert_eq!(whnf(&env, &Term::Const(ItemId(0)), 1000), None);
}

#[test]
fn uncurry_splits_function_types() {
    let t = pi(sort(0), Term::pi(BinderInfo::Implicit, sort(1), sort(2)));
    let (res, args) = uncurry(&t);
    assert_eq!(res, sort(2));
    assert_eq!(args, vec![(BinderInfo::Explicit, sort(0)), (BinderInfo::Implicit, sort(1))]);
}

#[test]
fn unify_reflexive_and_solving() {
    let mut table = SymbolTable::new();
    let env = env_with_nat(&mut table);
    let lang = LanguageItems::new();
    let ns = Namespace { decls: vec![], children: vec![] };
    let mut cx = ElabCtx::new(&env, &lang, &ns, ItemId(2), 0);
    let nat = Term::Const(ItemId(0));
    assert!(cx.unify(&nat, &nat).is_ok());
    assert_eq!(cx.mctx.num_solutions(), 0);
    let m = cx.fresh_mvar(sort(1));
    assert!(cx.unify(&m, &nat).is_ok());
    assert_eq!(cx.mctx.num_solutions(), 1);
    assert_eq!(cx.zonk(&app(m.copy(), m.copy())), app(nat.copy(), nat.copy()));
    // Unfolding `id zero` meets `zero`.
    let zero = Term::Const(ItemId(1));
    assert!(cx.unify(&app(Term::Const(ItemId(2)), zero.copy()), &zero).is_ok());
}

#[test]
fn unify_errors() {
    let mut table = SymbolTable::new();
    let env = env_with_nat(&mut table);
    let lang = LanguageItems::new();
    let ns = Namespace { decls: vec![], children: vec![] };
    let mut cx = ElabCtx::new(&env, &lang, &ns, ItemId(2), 0);
    let nat = Term::Const(ItemId(0));
    let zero = Term::Const(ItemId(1));
    match cx.unify(&nat, &zero) {
        Err(UnifyError::Mismatch { a, b }) => {
            assert_eq!(a, nat.copy());
            assert_eq!(b, zero.copy());
        },
        other => panic!("unexpected {:?}", other),
    }
    let m = cx.fresh_mvar(sort(1));
    match cx.unify(&m, &app(m.copy(), zero.copy())) {
        Err(UnifyError::Occurs { .. }) => {},
        other => panic!("unexpected {:?}", other),
    }
    let f = cx.fresh_fvar(None, nat.copy(), BinderInfo::Explicit, TextRange::empty(), None);
    match cx.unify(&m, &Term::FVar(f)) {
        Err(UnifyError::Escaping { .. }) => {},
        other => panic!("unexpected {:?}", other),
    }
    let e = cx.unify(&app(nat.copy(), zero.copy()), &app(nat.copy(), nat.copy())).unwrap_err();
    assert!(matches!(e, UnifyError::Below { .. }));
    assert_eq!(e.root(), (zero.copy(), nat.copy()));
}

#[test]
fn occurs_check_follows_solutions_and_zonk_is_complete() {
    let mut table = SymbolTable::new();
    let env = env_with_nat(&mut table);
    let lang = LanguageItems::new();
    let ns = Namespace { decls: vec![], children: vec![] };
    let mut cx = ElabCtx::new(&env, &lang, &ns, ItemId(2), 0);
    let nat = Term::Const(ItemId(0));
    let zero = Term::Const(ItemId(1));
    let m1 = cx.fresh_mvar(sort(1));
    let m2 = cx.fresh_mvar(sort(1));
    assert!(cx.unify(&m1, &app(nat.copy(), m2.copy())).is_ok());
    // `m2 := Nat m1` would close the cycle m1 -> m2 -> m1.
    match cx.unify(&m2, &app(nat.copy(), m1.copy())) {
        Err(UnifyError::Occurs { .. }) => {},
        other => panic!("unexpected {:?}", other),
    }
    assert_eq!(cx.mctx.num_solutions(), 1);
    assert!(cx.unify(&m2, &zero).is_ok());
    let z = cx.zonk(&m1);
    assert_eq!(z, app(nat.copy(), zero.copy()));
    assert_eq!(cx.zonk(&z), z);
    assert_eq!(cx.zonk(&app(m2.copy(), m1.copy())), app(zero.copy(), app(nat.copy(), zero.copy())));
}

#[test]
fn infer_sorts_and_functions() {
    let mut table = SymbolTable::new();
    let env = env_with_nat(&mut table);
    let lang = LanguageItems::new();
    let ns = Namespace { decls: vec![], children: vec![] };
    let mut cx = ElabCtx::new(&env, &lang, &ns, ItemId(2), 0);
    assert_eq!(cx.infer_term(&sort(0)).ok(), Some(sort(1)));
    let nat = Term::Const(ItemId(0));
    let id_nat = lam(nat.copy(), Term::BVar(0));
    assert_eq!(cx.infer_term(&id_nat).ok(), Some(pi(nat.copy(), nat.copy())));
    let zero = Term::Const(ItemId(1));
    assert_eq!(cx.infer_term(&app(id_nat.copy(), zero.copy())).ok(), Some(nat.copy()));
    let arrow = pi(nat.copy(), nat.copy());
    assert_eq!(
        cx.infer_term(&arrow).ok(),
        Some(Term::Sort(Level::IMax(Box::new(Level::Succ(Box::new(Level::Zero))), Box::new(Level::Succ(Box::new(Level::Zero))))))
    );
    assert_eq!(cx.lctx.len(), 0);
}

#[test]
fn infer_errors() {
    let mut table = SymbolTable::new();
    let env = env_with_nat(&mut table);
    let lang = LanguageItems::new();
    let ns = Namespace { decls: vec![], children: vec![] };
    let mut cx = ElabCtx::new(&env, &lang, &ns, ItemId(2), 0);
    let nat = Term::Const(ItemId(0));
    let zero = Term::Const(ItemId(1));
    assert!(matches!(cx.infer_term(&Term::BVar(3)), Err(InferTermError::UnboundBVar(3))));
    assert!(matches!(cx.infer_term(&Term::FVar(Unique(9))), Err(InferTermError::UnknownFVar(Unique(9)))));
    assert!(matches!(cx.infer_term(&Term::MVar(Unique(9))), Err(InferTermError::UnknownMVar(Unique(9)))));
    assert!(matches!(cx.infer_term(&Term::Const(ItemId(9))), Err(InferTermError::UnknownConst(ItemId(9)))));
    assert!(matches!(cx.infer_term(&app(zero.copy(), zero.copy())), Err(InferTermError::ExpectedFunction { .. })));
    assert!(matches!(cx.infer_term(&lam(zero.copy(), Term::BVar(0))), Err(InferTermError::ExpectedType { .. })));
    let id_nat = lam(nat.copy(), Term::BVar(0));
    assert!(matches!(cx.infer_term(&app(id_nat, nat.copy())), Err(InferTermError::TypeMismatch { .. })));
    let lit = Term::Lit(Literal::Numeric(NumberLiteral { value: NumberValue::Integer("1".to_string()), suffix: None }));
    assert!(matches!(cx.infer_term(&lit), Err(InferTermError::MissingLangItem(LangItem::Int32))));
}

#[test]
fn literals_are_typed_by_lang_items() {
    let mut table = SymbolTable::new();
    let env = env_with_nat(&mut table);
    let mut lang = LanguageItems::new();
    lang.insert(LangItem::Int32, ItemId(0));
    lang.insert(LangItem::Str, ItemId(1));
    let ns = Namespace { decls: vec![], children: vec![] };
    let mut cx = ElabCtx::new(&env, &lang, &ns, ItemId(2), 0);
    let lit = Term::Lit(Literal::Numeric(NumberLiteral { value: NumberValue::Integer("1".to_string()), suffix: None }));
    assert_eq!(cx.infer_term(&lit).ok(), Some(Term::Const(ItemId(0))));
    let s = Term::Lit(Literal::Text("hi".to_string()));
    assert_eq!(cx.infer_term(&s).ok(), Some(Term::Const(ItemId(1))));
}

#[test]
fn inference_failures_are_reported() {
    let mut table = SymbolTable::new();
    let env = env_with_nat(&mut table);
    let lang = LanguageItems::new();
    let ns = Namespace { decls: vec![], children: vec![] };
    let mut cx = ElabCtx::new(&env, &lang, &ns, ItemId(2), 3);
    let zero = Term::Const(ItemId(1));
    let span = TextRange::new(4, 9);
    assert_eq!(cx.infer_term_with_diagnostics(&table, &app(zero.copy(), zero.copy()), span), None);
    let d = &cx.diagnostics[0];
    assert_eq!(d.severity, Severity::Error);
    assert_eq!(d.message, "expected a function");
    assert_eq!(d.primary.file, 3);
    assert_eq!(d.primary.range, span);
    assert_eq!(d.primary.message.as_deref(), Some("expected `zero` to be a function, but its type is `Nat`"));
    assert_eq!(cx.infer_term_with_diagnostics(&table, &Term::BVar(0), span), None);
    let d = &cx.diagnostics[1];
    assert_eq!(d.message, "could not infer the type of this term");
    assert_eq!(d.primary.message.as_deref(), Some("unbound de Bruijn variable #0"));
    assert_eq!(d.notes, vec!["while inferring `#0`".to_string()]);
    assert_eq!(cx.infer_term_with_diagnostics(&table, &zero, span), Some(Term::Const(ItemId(0))));
    assert_eq!(cx.diagnostics.len(), 2);
}

#[test]
fn unsolved_holes_are_reported_once_each() {
    let mut table = SymbolTable::new();
    let env = env_with_nat(&mut table);
    let lang = LanguageItems::new();
    let ns = Namespace { decls: vec![], children: vec![] };
    let mut cx = ElabCtx::new(&env, &lang, &ns, ItemId(2), 0);
    let m1 = cx.fresh_mvar(sort(1));
    let m2 = cx.fresh_mvar(sort(1));
    let t = app(app(m1.copy(), m2.copy()), m1.copy());
    cx.report_unsolved_mvars(&t, TextRange::new(0, 1));
    assert_eq!(cx.diagnostics.len(), 1);
    assert_eq!(cx.diagnostics[0].message, "could not infer all implicit values in this declaration");
    assert_eq!(cx.diagnostics[0].notes, vec!["2 metavariable(s) could not be solved".to_string()]);
    let nat = Term::Const(ItemId(0));
    cx.unify(&m1, &nat).unwrap();
    cx.unify(&m2, &nat).unwrap();
    cx.report_unsolved_mvars(&t, TextRange::new(0, 1));
    assert_eq!(cx.diagnostics.len(), 1);
}

#[test]
fn mismatch_names_the_conflict() {
    let mut table = SymbolTable::new();
    let env = env_with_nat(&mut table);
    let lang = LanguageItems::new();
    let ns = Namespace { decls: vec![], children: vec![] };
    let mut cx = ElabCtx::new(&env, &lang, &ns, ItemId(2), 0);
    let nat = Term::Const(ItemId(0));
    let zero = Term::Const(ItemId(1));
    let found = app(nat.copy(), zero.copy());
    let wanted = app(nat.copy(), nat.copy());
    let err = cx.unify(&found, &wanted).unwrap_err();
    let expected = lotus::report::Expected::new(
        wanted,
        lotus::report::ExpectedReason::Annotation { range: TextRange::new(1, 2) },
    );
    let d = cx.mismatch(&table, TextRange::new(3, 4), &found, &expected, &err).build();
    assert_eq!(d.message, "type mismatch: expected `(Nat Nat)`, found `(Nat zero)`");
    assert_eq!(d.primary.message.as_deref(), Some("this is `(Nat zero)`, expected `(Nat Nat)`"));
    assert_eq!(d.secondaries.len(), 1);
    assert_eq!(d.secondaries[0].message.as_deref(), Some("expected `(Nat Nat)` because of this annotation"));
    assert_eq!(d.notes, vec!["the conflict is between `zero` and `Nat`".to_string()]);
}

#[test]
fn language_items_are_found_missing_or_ambiguous() {
    let mut table = SymbolTable::new();
    let env = env_with_nat(&mut table);
    let lang = LanguageItems::new();
    let ns = Namespace { decls: vec![], children: vec![] };
    let mut cx = ElabCtx::new(&env, &lang, &ns, ItemId(2), 0);
    let range = TextRange::new(3, 7);
    let one = vec![LangCandidate { id: ItemId(0), defined_at: None }];
    assert_eq!(cx.lang_item_among(LangItem::Boolean, range, &one), Term::Const(ItemId(0)));
    assert!(cx.diagnostics.is_empty());
    let t = cx.lang_item_among(LangItem::Boolean, range, &vec![]);
    assert!(matches!(t, Term::Error(_)));
    assert_eq!(cx.diagnostics.len(), 1);
    assert_eq!(cx.diagnostics[0].message, "missing language item: type.boolean");
    let two = vec![
        LangCandidate { id: ItemId(0), defined_at: Some((4, TextRange::new(1, 2))) },
        LangCandidate { id: ItemId(1), defined_at: None },
        LangCandidate { id: ItemId(2), defined_at: Some((5, TextRange::new(8, 9))) },
    ];
    let t = cx.lang_item_among(LangItem::Boolean, range, &two);
    assert!(matches!(t, Term::Error(_)));
    let d = &cx.diagnostics[1];
    assert_eq!(d.severity, Severity::Error);
    assert_eq!(d.message, "ambiguous language item `type.boolean`");
    assert_eq!(d.primary.range, range);
    assert_eq!(d.secondaries.len(), 2);
    assert_eq!(d.secondaries[0].file, 4);
    assert_eq!(d.secondaries[1].range, TextRange::new(8, 9));
    assert_eq!(d.secondaries[1].message.as_deref(), Some("candidate defined here"));
}

#[test]
fn shifting_a_closed_term_changes_nothing() {
    let closed = lam(sort(0), app(Term::BVar(0), Term::Const(ItemId(1))));
    assert_eq!(shift(&closed, 4), closed);
    let open = lam(sort(0), Term::BVar(1));
    assert_eq!(shift(&open, 4), lam(sort(0), Term::BVar(5)));
}
