use luminess::directives::{apply_directive, format_date, html_escape, strip_html_tags};
use luminess::error::LuminessError;

#[test]
fn basic_directives() {
    assert_eq!(apply_directive("  hello  ", "TRIM").unwrap(), "hello");
    assert_eq!(apply_directive("hello", "UCASE").unwrap(), "HELLO");
    assert_eq!(apply_directive("HELLO", "LCASE").unwrap(), "hello");
}

#[test]
fn html_escaping() {
    let input = "<script>alert('xss')</script>";
    let expected = "&lt;script&gt;alert(&#x27;xss&#x27;)&lt;/script&gt;";
    assert_eq!(apply_directive(input, "ESCAPE_HTML").unwrap(), expected);
}

#[test]
fn tag_stripping() {
    let input = "<p>Hello <strong>world</strong>!</p>";
    let expected = "Hello world!";
    assert_eq!(apply_directive(input, "STRIP_TAGS").unwrap(), expected);
}

#[test]
fn json_encoding_escapes() {
    assert_eq!(apply_directive("Hello \"World\"", "JSON_ENCODE").unwrap(), "\"Hello \\\"World\\\"\"");
    assert_eq!(apply_directive("a\\b\n\t\u{8}\u{c}\r\u{1f}é", "JSON_ENCODE").unwrap(), "\"a\\\\b\\n\\t\\b\\f\\r\\u001fé\"");
}

#[test]
fn unknown_directive_is_an_error() {
    match apply_directive("x", "REVERSE") {
        Err(LuminessError::Directive { directive, message, .. }) => {
            assert_eq!(directive, "REVERSE");
            assert_eq!(message, "Unknown directive");
        }
        _ => panic!("Expected a directive error"),
    }
    assert!(apply_directive("x", "ucase").is_err());
}

#[test]
fn escaping_leaves_no_markup_characters() {
    let out = html_escape("a&b<c>d\"e'f");
    assert_eq!(out, "a&amp;b&lt;c&gt;d&quot;e&#x27;f");
    assert!(!out.contains('<') && !out.contains('>') && !out.contains('"') && !out.contains('\''));
}

#[test]
fn stripping_handles_unbalanced_brackets() {
    assert_eq!(strip_html_tags("a>b<c"), "ab");
    assert_eq!(strip_html_tags("<<x>>y"), "y");
    assert_eq!(strip_html_tags(""), "");
}

#[test]
fn unicode_trim_and_case() {
    assert_eq!(apply_directive("\u{a0}\u{3000} x \u{2028}", "TRIM").unwrap(), "x");
    assert_eq!(apply_directive("straße", "UCASE").unwrap(), "STRASSE");
    assert_eq!(apply_directive("ÀB", "LCASE").unwrap(), "àb");
}

#[test]
fn placeholder_dates() {
    assert_eq!(format_date(1609459200, "%Y").unwrap(), "formatted_date_1609459200_%Y");
    assert_eq!(format_date(-5, "").unwrap(), "formatted_date_-5_");
    assert_eq!(format_date(i64::MIN, "d").unwrap(), "formatted_date_-9223372036854775808_d");
}

#[test]
fn dates_from_timestamps() {
    assert_eq!(apply_directive("1609459200", "FORMAT_DATE").unwrap(), "formatted_date_1609459200_%Y-%m-%d");
    assert_eq!(apply_directive("-5", "FORMAT_DATE").unwrap(), "formatted_date_-5_%Y-%m-%d");
    assert_eq!(apply_directive("+7", "FORMAT_DATE").unwrap(), "formatted_date_7_%Y-%m-%d");
    assert_eq!(
        apply_directive("-9223372036854775808", "FORMAT_DATE").unwrap(),
        "formatted_date_-9223372036854775808_%Y-%m-%d"
    );
    for bad in ["", "-", "12a", " 1", "9223372036854775808", "1.5"] {
        match apply_directive(bad, "FORMAT_DATE") {
            Err(LuminessError::Directive { directive, message, input_value, location }) => {
                assert_eq!(directive, "FORMAT_DATE");
                assert_eq!(message, "Invalid timestamp");
                assert!(input_value.is_none() && location.is_none());
            }
            _ => panic!("Expected a directive error for {bad:?}"),
        }
    }
}
