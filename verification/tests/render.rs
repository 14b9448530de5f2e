use lotus::diagnostics::{join_lines, primary_color_of, report_kind, Diagnostic, ReportColor, Severity, TextRange};
use lotus::env::{Env, ItemData};
use lotus::ids::{ItemId, ItemKind, Symbol, SymbolTable, Unique};
use lotus::literals::{Literal, NumberLiteral, NumberSuffix, NumberValue};
use lotus::term::{BinderInfo, Level, Term};

#[test]
fn report_kinds_name_severity_and_code() {
    let mut d = Diagnostic::error("boom", 0, TextRange { start: 0, end: 1 }).build();
    let (name, color) = report_kind(&d);
    assert_eq!(name, "error");
    assert_eq!(color, ReportColor::Red);
    d.code = Some("E0001".to_string());
    assert_eq!(report_kind(&d).0, "error[E0001]");
    let l = Diagnostic::lint("style", 0, TextRange { start: 0, end: 1 }).build();
    assert_eq!(report_kind(&l), ("lint".to_string(), ReportColor::Blue));
    assert_eq!(primary_color_of(Severity::Lint), ReportColor::Cyan);
    assert_eq!(primary_color_of(Severity::Warning), ReportColor::Yellow);
}

#[test]
fn notes_are_joined_under_each_other() {
    assert_eq!(join_lines(&vec![]), None);
    assert_eq!(join_lines(&vec!["a".to_string()]), Some("a".to_string()));
    assert_eq!(join_lines(&vec!["a".to_string(), "b".to_string()]), Some("a\n      b".to_string()));
}

#[test]
fn terms_have_a_debugging_form() {
    let mut table = SymbolTable::new();
    let mut env = Env::new();
    let nat = Symbol::from_str(&mut table, "Nat");
    env.items.push(ItemData { file: 0, name: nat, ast_index: 0, kind: ItemKind::Def, parent: None });
    let c = Term::Const(ItemId(0));
    let t = Term::lam(BinderInfo::Implicit, c.copy(), Term::app(Term::BVar(0), Term::FVar(Unique(2))));
    assert_eq!(t.debug(&env, &table), "(λ Implicit : Nat => (#0 ?f2))");
    let p = Term::pi(BinderInfo::Explicit, Term::Sort(Level::Zero), Term::MVar(Unique(5)));
    assert_eq!(p.debug(&env, &table), "(Explicit Sort ? -> ?m5)");
    let l = Term::let_(c.copy(), c.copy(), c.copy());
    assert_eq!(l.debug(&env, &table), "(let : Nat := Nat ; Nat)");
    let n = Term::Lit(Literal::Numeric(NumberLiteral {
        value: NumberValue::Integer("42".to_string()),
        suffix: Some(NumberSuffix::U8),
    }));
    assert_eq!(n.debug(&env, &table), "Numeric(NumberLiteral { value: Integer(42), suffix: Some(U8) })");
    let s = Term::Lit(Literal::Text("a\"b".to_string()));
    assert_eq!(s.debug(&env, &table), "Text(\"a\\\"b\")");
}
