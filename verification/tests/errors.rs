use luminess::error::{IoErrorKind, IoFailure, LuminessError};

#[test]
fn error_creation_and_display() {
    let err = LuminessError::lexer("Invalid token", 10, 5);
    assert_eq!(err.to_string(), "Lexer error at line 10, column 5: Invalid token");
}

#[test]
fn error_categories() {
    let lexer_err = LuminessError::lexer("test", 1, 1);
    assert_eq!(lexer_err.category(), "lexer");
    assert!(!lexer_err.is_recoverable());

    let context_err = LuminessError::context("test");
    assert_eq!(context_err.category(), "context");
    assert!(context_err.is_recoverable());
}

#[test]
fn user_friendly_messages() {
    let err = LuminessError::context_with_suggestions(
        "Key not found",
        "user.unknown",
        vec!["user.name".to_string(), "user.email".to_string()],
    );
    let msg = err.user_message();
    assert!(msg.contains("user.unknown"));
    assert!(msg.contains("user.name"));
    assert!(msg.contains("user.email"));
}

#[test]
fn template_not_found_with_paths() {
    let err = LuminessError::template_not_found_with_paths(
        "missing_template",
        vec!["themes/admin".to_string(), "themes/default".to_string()],
    );
    let msg = err.user_message();
    assert!(msg.contains("missing_template"));
    assert!(msg.contains("themes/admin"));
    assert!(msg.contains("themes/default"));
}

#[test]
fn directive_errors_with_input() {
    let err = LuminessError::directive_with_input(
        "UCASE",
        "Cannot convert to uppercase",
        "null value",
    );
    assert_eq!(err.category(), "directive");
    assert!(err.is_recoverable());

    let msg = err.user_message();
    assert!(msg.contains("UCASE"));
    assert!(msg.contains("null value"));
}

#[test]
fn io_error_conversion() {
    let io_err = std::io::Error::new(std::io::ErrorKind::NotFound, "File not found");
    let luminess_err = LuminessError::from(io_err);

    match luminess_err {
        LuminessError::Io { path, .. } => {
            assert_eq!(path, "<unknown>");
        }
        _ => panic!("Expected Io error"),
    }
}

#[test]
fn error_recoverability() {
    assert!(!LuminessError::lexer("test", 1, 1).is_recoverable());
    assert!(!LuminessError::parse("test", 1, 1).is_recoverable());
    assert!(!LuminessError::circular_reference("a->b->a").is_recoverable());
    assert!(!LuminessError::internal("test").is_recoverable());

    assert!(LuminessError::template_not_found("test").is_recoverable());
    assert!(LuminessError::context("test").is_recoverable());
    assert!(LuminessError::directive("TEST", "failed").is_recoverable());
    assert!(LuminessError::config("test").is_recoverable());
}

#[test]
fn display_of_every_kind() {
    assert_eq!(
        LuminessError::parse("bad", 3, 14).to_string(),
        "Parse error at line 3, column 14: bad"
    );
    assert_eq!(LuminessError::template_not_found("x").to_string(), "Template 'x' not found");
    assert_eq!(
        LuminessError::resolution("gone", "t").to_string(),
        "Template resolution error: gone"
    );
    assert_eq!(
        LuminessError::directive("UCASE", "Unknown directive").to_string(),
        "Directive error: UCASE failed: Unknown directive"
    );
    assert_eq!(
        LuminessError::type_error("abc", "number", "string").to_string(),
        "Type error: cannot convert 'abc' to number"
    );
    assert_eq!(LuminessError::config("c").to_string(), "Configuration error: c");
    assert_eq!(
        LuminessError::render("page", "boom").to_string(),
        "Rendering error in template 'page': boom"
    );
    assert_eq!(
        LuminessError::circular_reference("a->a").to_string(),
        "Circular reference detected: a->a"
    );
    assert_eq!(LuminessError::internal("oops").to_string(), "Internal error: oops");
    let io = LuminessError::Io {
        path: "f.lmtp".to_string(),
        source: IoFailure { kind: IoErrorKind::Other, message: "denied".to_string() },
    };
    assert_eq!(io.to_string(), "File error for 'f.lmtp': denied");
}

#[test]
fn user_message_of_lexer_error_with_snippet() {
    let err = LuminessError::lexer_with_snippet("Unclosed variable", 2, 7, "{{ name");
    assert_eq!(
        err.user_message(),
        "Template syntax error on line 2, column 7: Unclosed variable\n\n{{ name\n\nTip: Check for missing quotes, unclosed brackets, or invalid syntax."
    );
    let plain = LuminessError::internal_with_context("oops", "here");
    assert_eq!(plain.user_message(), "Internal error: oops");
}

#[test]
fn io_error_recoverability_follows_its_kind() {
    let denied = LuminessError::io(
        "secret.lmtp",
        std::io::Error::new(std::io::ErrorKind::PermissionDenied, "no"),
    );
    assert!(!denied.is_recoverable());
    assert_eq!(denied.category(), "io");
    let missing = LuminessError::io("a.lmtp", std::io::Error::new(std::io::ErrorKind::NotFound, "no"));
    assert!(missing.is_recoverable());
    let other = LuminessError::io("a.lmtp", std::io::Error::new(std::io::ErrorKind::Other, "odd"));
    assert!(other.is_recoverable());
    match other {
        LuminessError::Io { path, source } => {
            assert_eq!(path, "a.lmtp");
            assert_eq!(source.kind, IoErrorKind::Other);
            assert_eq!(source.message, "odd");
        }
        _ => panic!("Expected Io error"),
    }
}

#[test]
fn categories_of_every_kind() {
    assert_eq!(LuminessError::parse("p", 1, 1).category(), "parse");
    assert_eq!(LuminessError::template_not_found("t").category(), "template_not_found");
    assert_eq!(LuminessError::resolution("m", "t").category(), "resolution");
    assert_eq!(LuminessError::type_error("v", "e", "a").category(), "type_conversion");
    assert_eq!(LuminessError::config_key("m", "k").category(), "config");
    assert_eq!(LuminessError::render_at_line("t", "m", 4).category(), "render");
    assert_eq!(LuminessError::circular_reference("c").category(), "circular_reference");
    assert_eq!(LuminessError::internal("i").category(), "internal");
}

#[test]
fn user_message_of_parse_error_with_snippet() {
    let err = LuminessError::parse_with_snippet("Bad block", 3, 1, "{% if %}");
    assert_eq!(
        err.user_message(),
        "Template parse error on line 3, column 1: Bad block\n\n{% if %}\n\nTip: Verify template structure and directive syntax."
    );
    assert_eq!(err.to_string(), "Parse error at line 3, column 1: Bad block");
    assert!(!err.is_recoverable());
}
