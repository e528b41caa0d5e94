use luminess::lexer::{is_lexable, tokenize_source, Lexer, Position, TokenType};
use luminess::error::LuminessError;

#[test]
fn basic_tokenization() {
    let mut lexer = Lexer::new("{{ user.name | UCASE, 'Default' }}");
    let tokens = lexer.tokenize().unwrap();

    assert_eq!(tokens.len(), 1);
    match &tokens[0] {
        TokenType::Variable { path, directives, default } => {
            assert_eq!(path, &vec!["user".to_string(), "name".to_string()]);
            assert_eq!(directives, &vec!["UCASE".to_string()]);
            assert_eq!(default, &Some("Default".to_string()));
        }
        _ => panic!("Expected variable token"),
    }
}

#[test]
fn include_tokenization() {
    let mut lexer = Lexer::new("@include_header('admin')");
    let tokens = lexer.tokenize().unwrap();

    assert_eq!(tokens.len(), 1);
    match &tokens[0] {
        TokenType::IncludeHeader { variant } => {
            assert_eq!(variant, &Some("admin".to_string()));
        }
        _ => panic!("Expected include_header token"),
    }
}

fn lexer_error(source: &str) -> (String, usize, usize) {
    match tokenize_source(source) {
        Err(LuminessError::Lexer { message, line, column, .. }) => (message, line, column),
        other => panic!("expected a lexer error, got {:?}", other),
    }
}

#[test]
fn position_advances_over_lines() {
    let mut p = Position::new();
    assert_eq!(p, Position { line: 1, column: 1, offset: 0 });
    p.advance(b'a');
    assert_eq!(p, Position { line: 1, column: 2, offset: 1 });
    p.advance(b'\n');
    assert_eq!(p, Position { line: 2, column: 1, offset: 2 });
}

#[test]
fn text_blocks_and_raw_sections() {
    let tokens = tokenize_source("a{% if x.y  z %}b{% else %}{% endif %}{% raw %}{{ q }}{% endraw %}c").unwrap();
    assert_eq!(tokens.len(), 9);
    assert!(matches!(&tokens[0], TokenType::Text(t) if t == "a"));
    assert!(matches!(&tokens[1], TokenType::If { condition } if condition == "x.y z"));
    assert!(matches!(&tokens[2], TokenType::Text(t) if t == "b"));
    assert!(matches!(&tokens[3], TokenType::Else));
    assert!(matches!(&tokens[4], TokenType::EndIf));
    assert!(matches!(&tokens[5], TokenType::RawStart));
    assert!(matches!(&tokens[6], TokenType::Text(t) if t == "{{ q }}"));
    assert!(matches!(&tokens[7], TokenType::RawEnd));
    assert!(matches!(&tokens[8], TokenType::Text(t) if t == "c"));
}

#[test]
fn for_loop_and_includes() {
    let tokens = tokenize_source("{% for p in posts %}@include ( \"card\" )@include_footer{% endfor %}").unwrap();
    assert_eq!(tokens.len(), 4);
    assert!(matches!(&tokens[0], TokenType::For { item, collection } if item == "p" && collection == "posts"));
    assert!(matches!(&tokens[1], TokenType::Include { template } if template == "card"));
    assert!(matches!(&tokens[2], TokenType::IncludeFooter { variant: None }));
    assert!(matches!(&tokens[3], TokenType::EndFor));
}

#[test]
fn variable_path_and_directives() {
    let tokens = tokenize_source("{{ a. .b | TRIM , ESCAPE_HTML, \"fall back\" }}").unwrap();
    match &tokens[0] {
        TokenType::Variable { path, directives, default } => {
            assert_eq!(path, &vec!["a".to_string(), "b".to_string()]);
            assert_eq!(directives, &vec!["TRIM".to_string(), "ESCAPE_HTML".to_string()]);
            assert_eq!(default, &Some("fall back".to_string()));
        }
        _ => panic!("Expected variable token"),
    }
    // the list is cut at every comma, so a quoted default cannot hold one
    assert_eq!(
        lexer_error("{{ a | \"x,y\" }}"),
        ("Invalid directive '\"x' - directives must be UPPERCASE".to_string(), 1, 16)
    );
}

#[test]
fn lexer_errors_and_their_positions() {
    assert_eq!(lexer_error("ab\n  {{ name"), ("Unclosed variable".to_string(), 2, 3));
    assert_eq!(lexer_error("{{  | UCASE }}"), ("Empty variable path".to_string(), 1, 1));
    assert_eq!(
        lexer_error("x {{ a | lower }}"),
        ("Invalid directive 'lower' - directives must be UPPERCASE".to_string(), 1, 18)
    );
    assert_eq!(lexer_error("{% %}"), ("Empty block directive".to_string(), 1, 1));
    assert_eq!(lexer_error("{% if %}"), ("if directive requires a condition".to_string(), 1, 1));
    assert_eq!(
        lexer_error("{% for a of b %}"),
        ("for directive must be 'for item in collection'".to_string(), 1, 1)
    );
    assert_eq!(lexer_error("\n{% while %}"), ("Unknown block directive: while".to_string(), 2, 1));
    assert_eq!(lexer_error("{% if x"), ("Unclosed block directive".to_string(), 1, 1));
    assert_eq!(lexer_error("@include x"), ("Expected '(', found 'x'".to_string(), 1, 10));
    assert_eq!(lexer_error("@include()"), ("@include requires a template name".to_string(), 1, 1));
    assert_eq!(lexer_error("@include(name)"), ("Include parameter must be quoted".to_string(), 1, 10));
    assert_eq!(
        lexer_error("@include_header(\"abc"),
        ("Unterminated string in include parameter".to_string(), 1, 21)
    );
    assert_eq!(lexer_error("@include('a'"), ("Expected ')', found '\u{0}'".to_string(), 1, 13));
}

#[test]
fn lone_quote_in_directive_list_is_not_lexable() {
    assert!(!is_lexable("{{ a | \" }}"));
    assert!(!is_lexable("{{ a | ' }}"));
    assert!(is_lexable("{{ a | \"\" }}"));
    assert!(is_lexable("{{ a | lower }}"));
}

#[test]
fn empty_directive_and_empty_default() {
    let tokens = tokenize_source("{{ a | }}{{ b | '' }}").unwrap();
    match &tokens[0] {
        TokenType::Variable { directives, default, .. } => {
            assert_eq!(directives, &vec![String::new()]);
            assert_eq!(default, &None);
        }
        _ => panic!("Expected variable token"),
    }
    match &tokens[1] {
        TokenType::Variable { directives, default, .. } => {
            assert!(directives.is_empty());
            assert_eq!(default, &Some(String::new()));
        }
        _ => panic!("Expected variable token"),
    }
}

#[test]
fn text_is_decoded_as_utf8() {
    let tokens = tokenize_source("é").unwrap();
    assert_eq!(tokens, vec![TokenType::Text("é".to_string())]);
    let source = "Grüße, 世界! ✓";
    assert_eq!(tokenize_source(source).unwrap(), vec![TokenType::Text(source.to_string())]);
    let tokens = tokenize_source("ä{{ x }}ö{% raw %}ü{% endraw %}").unwrap();
    assert_eq!(tokens[0], TokenType::Text("ä".to_string()));
    assert_eq!(tokens[2], TokenType::Text("ö".to_string()));
    assert_eq!(tokens[4], TokenType::Text("ü".to_string()));
    let tokens = tokenize_source("@include('café')").unwrap();
    assert_eq!(tokens, vec![TokenType::Include { template: "café".to_string() }]);
}

#[test]
fn includes_and_blocks_at_the_end_are_lexable() {
    for source in ["@include_header", "@include_footer  ", "@include", "@include ( ", "{%", "{{", "{{ x }}", "{% raw %}"] {
        assert!(is_lexable(source), "{source}");
    }
    let tokens = tokenize_source("a@include_footer").unwrap();
    assert_eq!(tokens, vec![TokenType::Text("a".to_string()), TokenType::IncludeFooter { variant: None }]);
}

#[test]
fn variable_contents_decode_as_utf8() {
    let tokens = tokenize_source("{{ café | 'naïve' }}").unwrap();
    match &tokens[0] {
        TokenType::Variable { path, default, .. } => {
            assert_eq!(path, &vec!["café".to_string()]);
            assert_eq!(default, &Some("naïve".to_string()));
        }
        _ => panic!("Expected variable token"),
    }
}

#[test]
fn position_counts_lines_and_columns() {
    let mut p = Position::new();
    for b in "ab\ncd\n\nxyz".bytes() {
        p.advance(b);
    }
    assert_eq!(p.offset, 10);
    assert_eq!(p.line, 4);
    assert_eq!(p.column, 4);
}

#[test]
fn text_tokens_never_stand_side_by_side() {
    let tokens = tokenize_source("a{% raw %}b{{ c }}{% endraw %}d{% endif %}e{{ x }}f").unwrap();
    for pair in tokens.windows(2) {
        assert!(!(matches!(pair[0], TokenType::Text(_)) && matches!(pair[1], TokenType::Text(_))));
    }
    assert_eq!(tokens[2], TokenType::Text("b{{ c }}".to_string()));
}
