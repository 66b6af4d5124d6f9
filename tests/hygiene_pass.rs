use ident_hygiene::{
    hygiene, hygiene_with_config, rename, strip_contexts, Config, HygieneRenamer, Ident, Mark,
    MangleRenamer, Program, Renamer, Scope,
};

fn scope(parent: usize) -> Scope {
    Scope { parent, has_eval: false }
}

fn decl(sym: &str, ctxt: u32, scope: usize) -> Ident {
    Ident { sym: sym.to_string(), ctxt, scope, is_binding: true, is_class: false }
}

fn class(sym: &str, ctxt: u32, scope: usize) -> Ident {
    Ident { sym: sym.to_string(), ctxt, scope, is_binding: true, is_class: true }
}

fn use_of(sym: &str, ctxt: u32, scope: usize) -> Ident {
    Ident { sym: sym.to_string(), ctxt, scope, is_binding: false, is_class: false }
}

fn names(p: &Program) -> Vec<String> {
    p.idents.iter().map(|i| i.sym.clone()).collect()
}

fn config(keep_class_names: bool, top_level_mark: u32, ignore_eval: bool) -> Config {
    Config { keep_class_names, safari_10: false, top_level_mark: Mark(top_level_mark), ignore_eval }
}

#[test]
fn sibling_functions_keep_their_names() {
    let mut p = Program {
        scopes: vec![scope(0), scope(0), scope(0)],
        ctxt_marks: vec![],
        idents: vec![decl("x", 1, 1), use_of("x", 1, 1), decl("x", 2, 2), use_of("x", 2, 2)],
    };
    hygiene().run(&mut p);
    assert_eq!(names(&p), vec!["x", "x", "x", "x"]);
}

#[test]
fn nested_functions_suffix_the_inner_binding() {
    let mut p = Program {
        scopes: vec![scope(0), scope(0), scope(1)],
        ctxt_marks: vec![],
        idents: vec![decl("x", 1, 1), decl("x", 2, 2), use_of("x", 2, 2), use_of("x", 1, 2)],
    };
    hygiene().run(&mut p);
    assert_eq!(names(&p), vec!["x", "x1", "x1", "x"]);
}

#[test]
fn generated_temporary_is_renamed_not_the_users() {
    // Context 1 comes from the top-level mark 5, context 2 from mark 9.
    let mut p = Program {
        scopes: vec![scope(0)],
        ctxt_marks: vec![0, 5, 9],
        idents: vec![decl("tmp", 2, 0), decl("tmp", 1, 0), use_of("tmp", 1, 0), use_of("tmp", 2, 0)],
    };
    hygiene_with_config(config(false, 5, false)).run(&mut p);
    assert_eq!(names(&p), vec!["tmp1", "tmp", "tmp", "tmp1"]);
}

#[test]
fn eval_scope_is_not_mangled() {
    let mut p = Program {
        scopes: vec![scope(0), Scope { parent: 0, has_eval: true }, scope(0)],
        ctxt_marks: vec![],
        idents: vec![decl("y", 1, 1), use_of("y", 1, 1), decl("z", 2, 2), use_of("z", 2, 2)],
    };
    rename(&mut p, &config(false, 0, false), &MangleRenamer);
    assert_eq!(names(&p), vec!["y", "y", "_0", "_0"]);
}

#[test]
fn ignore_eval_mangles_everything() {
    let mut p = Program {
        scopes: vec![scope(0), Scope { parent: 0, has_eval: true }, scope(0)],
        ctxt_marks: vec![],
        idents: vec![decl("y", 1, 1), use_of("y", 1, 1), decl("z", 2, 2), use_of("z", 2, 2)],
    };
    rename(&mut p, &config(false, 0, true), &MangleRenamer);
    assert_eq!(names(&p), vec!["_0", "_0", "_1", "_1"]);
}

#[test]
fn eval_in_nested_scope_exposes_outer_binding() {
    let mut p = Program {
        scopes: vec![scope(0), scope(0), Scope { parent: 1, has_eval: true }, scope(0)],
        ctxt_marks: vec![],
        idents: vec![decl("y", 1, 1), decl("w", 3, 3), decl("u", 4, 0)],
    };
    rename(&mut p, &config(false, 0, false), &MangleRenamer);
    assert_eq!(names(&p), vec!["y", "_0", "u"]);
}

#[test]
fn contexts_are_cleared() {
    let mut p = Program {
        scopes: vec![scope(0), scope(0)],
        ctxt_marks: vec![],
        idents: vec![decl("a", 6, 0), decl("a", 23, 1), use_of("b", 4, 1)],
    };
    hygiene().run(&mut p);
    assert!(p.idents.iter().all(|i| i.ctxt == 0));
    assert_eq!(names(&p), vec!["a", "a1", "b"]);
}

#[test]
fn second_run_changes_nothing() {
    let mut p = Program {
        scopes: vec![scope(0), scope(0), scope(1)],
        ctxt_marks: vec![],
        idents: vec![decl("x", 1, 1), decl("x", 2, 2), use_of("x", 2, 2), decl("x1", 3, 0)],
    };
    hygiene().run(&mut p);
    let once = names(&p);
    hygiene().run(&mut p);
    assert_eq!(names(&p), once);
    assert!(p.idents.iter().all(|i| i.ctxt == 0));
}

#[test]
fn class_keeps_its_name_when_asked() {
    let mut p = Program {
        scopes: vec![scope(0), scope(0)],
        ctxt_marks: vec![],
        idents: vec![decl("Foo", 1, 0), class("Foo", 2, 1), use_of("Foo", 2, 1), use_of("Foo", 1, 0)],
    };
    hygiene_with_config(config(true, 0, false)).run(&mut p);
    assert_eq!(names(&p), vec!["Foo1", "Foo", "Foo", "Foo1"]);
}

#[test]
fn class_is_renamed_without_the_option() {
    let mut p = Program {
        scopes: vec![scope(0), scope(0)],
        ctxt_marks: vec![],
        idents: vec![decl("Foo", 1, 0), class("Foo", 2, 1), use_of("Foo", 2, 1)],
    };
    hygiene().run(&mut p);
    assert_eq!(names(&p), vec!["Foo", "Foo1", "Foo1"]);
}

#[test]
fn three_nested_bindings_get_distinct_names() {
    let mut p = Program {
        scopes: vec![scope(0), scope(0), scope(1)],
        ctxt_marks: vec![],
        idents: vec![decl("v", 1, 0), decl("v", 2, 1), decl("v", 3, 2)],
    };
    hygiene().run(&mut p);
    assert_eq!(names(&p), vec!["v", "v1", "v2"]);
}

#[test]
fn free_reference_is_not_captured() {
    let mut p = Program {
        scopes: vec![scope(0), scope(0)],
        ctxt_marks: vec![],
        idents: vec![decl("x", 1, 1), use_of("x", 9, 1), use_of("x", 1, 1)],
    };
    hygiene().run(&mut p);
    assert_eq!(names(&p), vec!["x1", "x", "x1"]);
}

#[test]
fn suffix_skips_names_in_use() {
    let mut p = Program {
        scopes: vec![scope(0), scope(0)],
        ctxt_marks: vec![],
        idents: vec![decl("x", 1, 0), decl("x1", 1, 0), decl("x", 2, 1)],
    };
    hygiene().run(&mut p);
    assert_eq!(names(&p), vec!["x", "x1", "x2"]);
}

#[test]
fn empty_program() {
    let mut p = Program { scopes: vec![scope(0)], ctxt_marks: vec![], idents: vec![] };
    hygiene().run(&mut p);
    assert!(p.idents.is_empty());
}

#[test]
fn strip_keeps_names() {
    let mut p = Program {
        scopes: vec![scope(0)],
        ctxt_marks: vec![],
        idents: vec![decl("q", 7, 0), use_of("r", 8, 0)],
    };
    strip_contexts(&mut p);
    assert_eq!(names(&p), vec!["q", "r"]);
    assert_eq!(p.idents[0].ctxt, 0);
    assert_eq!(p.idents[1].ctxt, 0);
}

#[test]
fn hygiene_policy_names() {
    let orig = "a".to_string();
    let mut n: usize = 0;
    assert_eq!(HygieneRenamer.new_name_for(&orig, &mut n), "a");
    assert_eq!(n, 1);
    assert_eq!(HygieneRenamer.new_name_for(&orig, &mut n), "a1");
    assert_eq!(n, 2);
    let mut m: usize = 12;
    assert_eq!(HygieneRenamer.new_name_for(&orig, &mut m), "a12");
    assert_eq!(m, 13);
    assert!(!HygieneRenamer.mangle());
}

#[test]
fn mangle_policy_names() {
    let orig = "long_name".to_string();
    let mut n: usize = 3;
    assert_eq!(MangleRenamer.new_name_for(&orig, &mut n), "_3");
    assert_eq!(n, 4);
    assert!(MangleRenamer.mangle());
}

#[test]
fn default_config() {
    let h = hygiene();
    assert!(!h.config.keep_class_names);
    assert!(!h.config.ignore_eval);
    assert_eq!(h.config.top_level_mark, Mark(0));
}
