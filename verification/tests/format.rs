use qasmfmt::format::{reject_blank, syntax_result, FormatContext};
use qasmfmt::{FormatConfig, FormatError};

#[test]
fn test_default_config_values() {
    let config = FormatConfig::default();
    assert_eq!(config.indent_size, 4);
    assert_eq!(config.max_width, 100);
    assert!(config.trailing_newline);
}

#[test]
fn test_empty_source_is_refused() {
    assert_eq!(reject_blank(""), Err(FormatError::EmptyInput));
}

#[test]
fn test_whitespace_only_source_is_refused() {
    assert_eq!(reject_blank("  \t\r\n  \n"), Err(FormatError::EmptyInput));
}

#[test]
fn test_nonblank_source_is_accepted() {
    assert_eq!(reject_blank("  qubit q;  "), Ok(()));
}

#[test]
fn test_no_parse_errors_allows_formatting() {
    assert_eq!(syntax_result(&vec![]), Ok(()));
}

#[test]
fn test_first_parse_error_is_surfaced() {
    let errors = vec![
        String::from("unexpected token"),
        String::from("missing semicolon"),
    ];
    assert_eq!(
        syntax_result(&errors),
        Err(FormatError::Syntax(String::from("unexpected token")))
    );
}

#[test]
fn test_error_messages() {
    assert_eq!(FormatError::EmptyInput.message(), "empty input");
    assert_eq!(
        FormatError::Syntax(String::from("bad")).message(),
        "syntax error: bad"
    );
}

#[test]
fn test_format_context_carries_config_and_source() {
    let config = FormatConfig::default();
    let source = "qubit q;";
    let ctx = FormatContext::new(&config, source);
    assert_eq!(ctx.config, &config);
    assert_eq!(ctx.source, source);
}
