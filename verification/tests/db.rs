use lotus::db::{Compiler, SourceDb, SourceFile};

#[test]
fn interning_a_path_again_updates_its_text() {
    let mut db = SourceDb::new();
    let a = db.intern_file("a.lt".to_string(), "one".to_string());
    let b = db.intern_file("b.lt".to_string(), "two".to_string());
    assert_eq!(a, SourceFile(0));
    assert_eq!(b, SourceFile(1));
    let again = db.intern_file("a.lt".to_string(), "three".to_string());
    assert_eq!(again, a);
    assert_eq!(db.text(a), "three");
    assert_eq!(db.text(b), "two");
    assert_eq!(db.source_file("b.lt"), Some(b));
    assert_eq!(db.source_file("c.lt"), None);
    assert_eq!(db.all_files(), vec![a, b]);
}

#[test]
fn a_root_selects_the_files_of_the_program() {
    let mut c = Compiler::new();
    let a = c.update_file("a.lt".to_string(), "x".to_string());
    let b = c.update_file("b.lt".to_string(), "y".to_string());
    assert_eq!(c.files(), vec![a, b]);
    c.set_root("p".to_string(), "/p".to_string(), vec![b], Some(b));
    assert_eq!(c.files(), vec![b]);
    assert_eq!(c.root.as_ref().map(|r| r.entrypoint), Some(Some(b)));
}
