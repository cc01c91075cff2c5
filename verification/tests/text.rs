use emscript::dag_program::human_format::bin_op_named;
use emscript::dag_program::BinOp;
use emscript::names::{same_text, NameMap};
use emscript::text::word;

#[test]
fn words_have_no_case_and_no_margin() {
    assert_eq!(word("add"), "add");
    assert_eq!(word("  ADD\t"), "add");
    assert_eq!(word("\n BrIf \r"), "brif");
    assert_eq!(word("a b"), "a b");
    assert_eq!(word(""), "");
    assert_eq!(word(" \u{a0}\u{c4}"), "\u{e4}");
}

#[test]
fn operations_have_names() {
    assert_eq!(bin_op_named("add"), Some(BinOp::Add));
    assert_eq!(bin_op_named("sub"), Some(BinOp::Sub));
    assert_eq!(bin_op_named("mul"), Some(BinOp::Mul));
    assert_eq!(bin_op_named("div"), Some(BinOp::Div));
    assert_eq!(bin_op_named("eq"), Some(BinOp::Eq));
    assert_eq!(bin_op_named("le"), Some(BinOp::Le));
    assert_eq!(bin_op_named("lt"), Some(BinOp::Lt));
    assert_eq!(bin_op_named("ADD"), None);
    assert_eq!(bin_op_named("ge"), None);
    assert_eq!(bin_op_named(""), None);
}

#[test]
fn names_stand_for_the_last_key() {
    let mut names = NameMap::new();
    assert_eq!(names.get("x"), None);
    names.insert("x".to_owned(), 1);
    names.insert("y".to_owned(), 2);
    names.insert("x".to_owned(), 3);
    assert_eq!(names.get("x"), Some(3));
    assert_eq!(names.get("y"), Some(2));
    assert_eq!(names.get("X"), None);
    assert!(same_text("ab", "ab"));
    assert!(!same_text("ab", "abc"));
}
