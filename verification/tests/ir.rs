use qasmfmt::ir::{join, Doc};

#[test]
fn test_text() {
    let doc = Doc::text("hello");
    assert_eq!(doc, Doc::Text(String::from("hello")));
}

#[test]
fn test_concat_optimization() {
    let doc = Doc::concat(vec![Doc::Nil, Doc::text("a"), Doc::Nil, Doc::text("b")]);
    match doc {
        Doc::Concat(docs) => assert_eq!(docs.len(), 2),
        _ => panic!("Expected Concat"),
    }
}

#[test]
fn test_join() {
    let docs = vec![Doc::text("a"), Doc::text("b"), Doc::text("c")];
    let result = join(docs, Doc::text(" "));

    match result {
        Doc::Concat(parts) => assert_eq!(parts.len(), 5),
        _ => panic!("Expected Concat"),
    }
}

#[test]
fn test_concat_empty_collapses_to_nil() {
    assert_eq!(Doc::concat(vec![]), Doc::Nil);
    assert_eq!(Doc::concat(vec![Doc::Nil, Doc::Nil]), Doc::Nil);
}

#[test]
fn test_concat_single_collapses_to_child() {
    let doc = Doc::concat(vec![Doc::Nil, Doc::text("x")]);
    assert_eq!(doc, Doc::Text(String::from("x")));
}

#[test]
fn test_concat_absorbs_interspersed_nil() {
    let with_nils = Doc::concat(vec![
        Doc::Nil,
        Doc::text("a"),
        Doc::Nil,
        Doc::hardline(),
        Doc::Nil,
        Doc::text("b"),
    ]);
    let without_nils = Doc::concat(vec![Doc::text("a"), Doc::hardline(), Doc::text("b")]);
    assert_eq!(with_nils, without_nils);
}

#[test]
fn test_join_of_empty_is_nil() {
    assert_eq!(join(vec![], Doc::text(", ")), Doc::Nil);
}

#[test]
fn test_join_of_single_is_that_doc() {
    let result = join(vec![Doc::text("alone")], Doc::text(", "));
    assert_eq!(result, Doc::Text(String::from("alone")));
}

#[test]
fn test_space_is_one_space_text() {
    assert_eq!(Doc::space(), Doc::Text(String::from(" ")));
}

#[test]
fn test_clone_is_deep_copy() {
    let doc = Doc::group(Doc::concat(vec![
        Doc::text("a"),
        Doc::softline(),
        Doc::indent(Doc::text("b")),
    ]));
    assert_eq!(doc.clone(), doc);
}
