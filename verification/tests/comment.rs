use qasmfmt::comment::{extract_comments, CommentStyle};

#[test]
fn test_line_comment() {
    let source = "qubit q; // comment\n";
    let comments = extract_comments(source);

    assert_eq!(comments.len(), 1);
    assert_eq!(comments[0].line, 0);
    assert_eq!(comments[0].style, CommentStyle::Line);
    assert_eq!(comments[0].content, "// comment");
}

#[test]
fn test_block_comment() {
    let source = "/* block */\nqubit q;";
    let comments = extract_comments(source);

    assert_eq!(comments.len(), 1);
    assert_eq!(comments[0].line, 0);
    assert_eq!(comments[0].style, CommentStyle::Block);
}

#[test]
fn test_comment_in_string() {
    let source = r#"include "// not comment";"#;
    let comments = extract_comments(source);
    assert!(comments.is_empty());
}

#[test]
fn test_line_comment_position_and_content() {
    let comments = extract_comments("foo // bar\n");
    assert_eq!(comments.len(), 1);
    assert_eq!(comments[0].style, CommentStyle::Line);
    assert_eq!(comments[0].content, "// bar");
    assert_eq!(comments[0].line, 0);
    assert_eq!(comments[0].column, 4);
}

#[test]
fn test_string_literal_hides_comment() {
    let comments = extract_comments("\"// not a comment\"");
    assert!(comments.is_empty());
}

#[test]
fn test_multiline_block_comment_records_opening_line() {
    let comments = extract_comments("/* a\nb */");
    assert_eq!(comments.len(), 1);
    assert_eq!(comments[0].style, CommentStyle::Block);
    assert_eq!(comments[0].content, "/* a\nb */");
    assert_eq!(comments[0].line, 0);
    assert_eq!(comments[0].column, 0);
}

#[test]
fn test_unterminated_block_comment_runs_to_end() {
    let comments = extract_comments("/* unterminated");
    assert_eq!(comments.len(), 1);
    assert_eq!(comments[0].style, CommentStyle::Block);
    assert_eq!(comments[0].content, "/* unterminated");
}

#[test]
fn test_block_comment_opening_later_keeps_position() {
    let comments = extract_comments("x\n/* a\nb */ y");
    assert_eq!(comments.len(), 1);
    assert_eq!(comments[0].style, CommentStyle::Block);
    assert_eq!(comments[0].content, "/* a\nb */");
    assert_eq!(comments[0].line, 1);
    assert_eq!(comments[0].column, 0);
}

#[test]
fn test_line_numbering_continues_after_block_comment() {
    let comments = extract_comments("/* a\nb */\n// tail");
    assert_eq!(comments.len(), 2);
    assert_eq!(comments[0].style, CommentStyle::Block);
    assert_eq!(comments[0].line, 0);
    assert_eq!(comments[1].style, CommentStyle::Line);
    assert_eq!(comments[1].content, "// tail");
    assert_eq!(comments[1].line, 2);
    assert_eq!(comments[1].column, 0);
}

#[test]
fn test_two_comments_on_one_line_kept_in_scan_order() {
    let comments = extract_comments("/* a */ // b");
    assert_eq!(comments.len(), 2);
    assert_eq!(comments[0].style, CommentStyle::Block);
    assert_eq!(comments[0].content, "/* a */");
    assert_eq!(comments[0].line, 0);
    assert_eq!(comments[1].style, CommentStyle::Line);
    assert_eq!(comments[1].content, "// b");
    assert_eq!(comments[1].line, 0);
    assert_eq!(comments[1].column, 8);
}

#[test]
fn test_bare_slash_is_not_a_comment() {
    let comments = extract_comments("a / b\n");
    assert!(comments.is_empty());
}

#[test]
fn test_line_comment_at_end_of_input() {
    let comments = extract_comments("//");
    assert_eq!(comments.len(), 1);
    assert_eq!(comments[0].style, CommentStyle::Line);
    assert_eq!(comments[0].content, "//");
    assert_eq!(comments[0].column, 0);
}

#[test]
fn test_empty_source_has_no_comments() {
    assert!(extract_comments("").is_empty());
}

#[test]
fn test_quote_inside_comment_does_not_toggle_string() {
    let comments = extract_comments("// \"quoted\"\n// second");
    assert_eq!(comments.len(), 2);
    assert_eq!(comments[0].content, "// \"quoted\"");
    assert_eq!(comments[1].content, "// second");
    assert_eq!(comments[1].line, 1);
}
