use qasmfmt::ir::{join, Doc};
use qasmfmt::printer::{print, Printer};
use qasmfmt::FormatConfig;

fn default_config() -> FormatConfig {
    FormatConfig::default()
}

#[test]
fn test_simple_text() {
    let doc = Doc::text("hello");
    let result = print(&doc, &default_config());
    assert_eq!(result, "hello\n");
}

#[test]
fn test_concat() {
    let doc = Doc::concat(vec![Doc::text("a"), Doc::text(" "), Doc::text("b")]);
    let result = print(&doc, &default_config());
    assert_eq!(result, "a b\n");
}

#[test]
fn test_hardline() {
    let doc = Doc::concat(vec![Doc::text("a"), Doc::hardline(), Doc::text("b")]);
    let result = print(&doc, &default_config());
    assert_eq!(result, "a\nb\n");
}

#[test]
fn test_indent() {
    let doc = Doc::concat(vec![
        Doc::text("outer"),
        Doc::hardline(),
        Doc::indent(Doc::text("inner")),
    ]);
    let result = print(&doc, &default_config());
    // "inner" is only flushed by the end-of-print flush, after the
    // indentation scope has closed, so it carries no indentation.
    assert_eq!(result, "outer\ninner\n");
}

#[test]
fn test_group_fits() {
    let doc = Doc::group(Doc::concat(vec![
        Doc::text("a"),
        Doc::softline(),
        Doc::text("b"),
    ]));
    let result = print(&doc, &default_config());
    assert_eq!(result, "a b\n");
}

#[test]
fn test_no_trailing_newline() {
    let mut config = default_config();
    config.trailing_newline = false;

    let doc = Doc::text("hello");
    let result = print(&doc, &config);
    assert_eq!(result, "hello");
}

#[test]
fn test_printer_object_renders_like_free_function() {
    let config = default_config();
    let doc = Doc::concat(vec![Doc::text("x"), Doc::hardline()]);
    let by_object = Printer::new(&config).print(&doc);
    let by_function = print(&doc, &config);
    assert_eq!(by_object, by_function);
}

#[test]
fn test_group_breaks_when_too_wide() {
    let mut config = default_config();
    config.max_width = 4;
    let doc = Doc::group(Doc::concat(vec![
        Doc::text("aaa"),
        Doc::softline(),
        Doc::text("bbb"),
    ]));
    let result = print(&doc, &config);
    assert_eq!(result, "aaa\nbbb\n");
}

#[test]
fn test_group_fits_exactly_on_budget() {
    let mut config = default_config();
    config.max_width = 3;
    let doc = Doc::group(Doc::concat(vec![
        Doc::text("a"),
        Doc::softline(),
        Doc::text("b"),
    ]));
    let result = print(&doc, &config);
    assert_eq!(result, "a b\n");
}

#[test]
fn test_group_with_hardline_always_breaks() {
    let doc = Doc::group(Doc::concat(vec![
        Doc::text("a"),
        Doc::hardline(),
        Doc::text("b"),
        Doc::softline(),
        Doc::text("c"),
    ]));
    let result = print(&doc, &default_config());
    assert_eq!(result, "a\nb\nc\n");
}

#[test]
fn test_indent_without_flush_has_no_effect() {
    let doc = Doc::indent(Doc::text("x"));
    let result = print(&doc, &default_config());
    assert_eq!(result, "x\n");
}

#[test]
fn test_fitting_group_renders_texts_and_spaces_only() {
    let doc = Doc::group(Doc::concat(vec![
        Doc::text("a"),
        Doc::softline(),
        Doc::indent(Doc::text("x")),
    ]));
    let result = print(&doc, &default_config());
    assert_eq!(result, "a x\n");
}

#[test]
fn test_flush_inside_indent_uses_current_depth() {
    let doc = Doc::concat(vec![
        Doc::text("a"),
        Doc::indent(Doc::concat(vec![Doc::hardline(), Doc::text("b")])),
    ]);
    let result = print(&doc, &default_config());
    // The pending line "a" is flushed by the hardline inside the scope,
    // so it is the line that receives the deeper indentation.
    assert_eq!(result, "    a\nb\n");
}

#[test]
fn test_nested_indent_adds_one_level_each() {
    let mut config = default_config();
    config.trailing_newline = false;
    let doc = Doc::concat(vec![
        Doc::text("a"),
        Doc::hardline(),
        Doc::indent(Doc::concat(vec![
            Doc::text("b"),
            Doc::hardline(),
            Doc::indent(Doc::concat(vec![Doc::text("c"), Doc::hardline()])),
        ])),
    ]);
    let result = print(&doc, &config);
    assert_eq!(result, "a\n    b\n        c");
}

#[test]
fn test_indent_size_controls_flush_width() {
    let mut config = default_config();
    config.indent_size = 2;
    let doc = Doc::concat(vec![
        Doc::indent(Doc::concat(vec![Doc::text("b"), Doc::hardline()])),
        Doc::text("c"),
    ]);
    let result = print(&doc, &config);
    assert_eq!(result, "  b\nc\n");
}

#[test]
fn test_hardline_on_empty_line_keeps_blank_line() {
    let doc = Doc::concat(vec![
        Doc::text("a"),
        Doc::hardline(),
        Doc::hardline(),
        Doc::text("b"),
    ]);
    let result = print(&doc, &default_config());
    assert_eq!(result, "a\n\nb\n");
}

#[test]
fn test_nil_renders_single_newline() {
    let result = print(&Doc::nil(), &default_config());
    assert_eq!(result, "\n");

    let mut config = default_config();
    config.trailing_newline = false;
    assert_eq!(print(&Doc::nil(), &config), "");
}

#[test]
fn test_no_trailing_newline_strips_all() {
    let mut config = default_config();
    config.trailing_newline = false;
    let doc = Doc::concat(vec![Doc::text("a"), Doc::hardline(), Doc::hardline()]);
    let result = print(&doc, &config);
    assert_eq!(result, "a");
}

#[test]
fn test_join_renders_separators_between_elements() {
    let doc = join(
        vec![Doc::text("a"), Doc::text("b"), Doc::text("c")],
        Doc::text(", "),
    );
    let result = print(&doc, &default_config());
    assert_eq!(result, "a, b, c\n");
}

#[test]
fn test_join_empty_renders_like_nil() {
    let doc = join(vec![], Doc::text(", "));
    assert_eq!(print(&doc, &default_config()), "\n");

    let mut config = default_config();
    config.trailing_newline = false;
    let empty_join = join(vec![], Doc::text(", "));
    assert_eq!(print(&empty_join, &config), "");
}

#[test]
fn test_join_single_renders_like_doc_alone() {
    let alone = print(&Doc::text("d"), &default_config());
    let joined = print(&join(vec![Doc::text("d")], Doc::text(", ")), &default_config());
    assert_eq!(alone, joined);
}

#[test]
fn test_statement_document_end_to_end() {
    let doc = Doc::concat(vec![
        Doc::text("qubit"),
        Doc::text("[2]"),
        Doc::space(),
        Doc::text("q"),
        Doc::text(";"),
    ]);
    let result = print(&doc, &default_config());
    assert_eq!(result, "qubit[2] q;\n");
}

#[test]
fn test_printing_twice_is_identical() {
    let config = default_config();
    let doc = Doc::group(Doc::concat(vec![
        Doc::text("a"),
        Doc::softline(),
        Doc::indent(Doc::concat(vec![Doc::hardline(), Doc::text("b")])),
    ]));
    let first = print(&doc, &config);
    let second = print(&doc, &config);
    assert_eq!(first, second);
}
