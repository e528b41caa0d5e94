use luminess::context::Context;
use luminess::error::LuminessError;
use luminess::lexer::is_lexable;
use luminess::parser::{AstNode, TemplateParser};
use luminess::lexer::tokenize_source;
use luminess::resolver::TemplateResolver;
use luminess::{Luminess, LuminessConfig};

#[test]
fn engine_configuration() {
    let engine = Luminess::new().with_extension("html").with_template_path("themes/admin");
    assert_eq!(engine.config().extension, "html");
    assert_eq!(engine.config().template_paths, vec!["templates".to_string(), "themes/admin".to_string()]);
    assert_eq!(engine.resolver().extension(), "html");
    let config = LuminessConfig {
        extension: "lmtp".to_string(),
        template_paths: vec!["views".to_string()],
        ..Default::default()
    };
    let engine = Luminess::with_config(config).unwrap();
    assert_eq!(engine.resolver().template_paths().to_vec(), vec!["views".to_string()]);
}

#[test]
fn templates_are_stored_replaced_and_cleared() {
    let mut engine = Luminess::new();
    assert!(engine.add_template("page", "<h1>{{ title }}</h1>").is_ok());
    assert!(engine.add_template("email", "Hello {{ name }}!").is_ok());
    assert!(engine.add_template("page", "v2").is_ok());
    assert!(engine.has_template("page"));
    let mut names: Vec<String> = engine.template_names().into_iter().cloned().collect();
    names.sort();
    assert_eq!(names, vec!["email".to_string(), "page".to_string()]);

    let ctx = Context::new();
    let out = engine.render_plan("page", &ctx).unwrap().finish().unwrap();
    assert_eq!(out, "v2");

    assert!(engine.add_template("bad", "{{ unclosed").is_err());
    assert!(!engine.has_template("bad"));

    engine.clear_templates();
    assert!(!engine.has_template("page"));
    match engine.render_plan("page", &ctx) {
        Err(LuminessError::TemplateNotFound { name, .. }) => assert_eq!(name, "page"),
        _ => panic!("Expected template not found"),
    }
}

#[test]
fn syntax_validation() {
    let engine = Luminess::new();
    assert!(engine.validate_syntax("<h1>{{ title }}</h1>").is_ok());
    assert!(engine.validate_syntax("<h1>{{ unclosed").is_err());
    assert!(is_lexable("{{ unclosed"));
}

#[test]
fn blocks_end_at_their_closing_tokens() {
    let text = |n: &AstNode| match n {
        AstNode::Text(t) => t.clone(),
        _ => panic!("Expected text"),
    };
    let tokens = tokenize_source("{% if a %}x{% endif %}y").unwrap();
    let template = TemplateParser::new().parse(tokens).unwrap();
    assert_eq!(template.nodes.len(), 2);
    match &template.nodes[0] {
        AstNode::Conditional { condition, body, else_body } => {
            assert_eq!(condition, "a");
            assert_eq!(body.len(), 1);
            assert_eq!(text(&body[0]), "x");
            assert!(else_body.is_none());
        }
        _ => panic!("Expected a conditional"),
    }
    assert_eq!(text(&template.nodes[1]), "y");

    let tokens = tokenize_source("{% if a %}x{% else %}z{% endif %}").unwrap();
    let template = TemplateParser::new().parse(tokens).unwrap();
    assert_eq!(template.nodes.len(), 1);
    match &template.nodes[0] {
        AstNode::Conditional { body, else_body, .. } => {
            assert_eq!(body.len(), 1);
            assert_eq!(text(&body[0]), "x");
            let e = else_body.as_ref().unwrap();
            assert_eq!(e.len(), 1);
            assert_eq!(text(&e[0]), "z");
        }
        _ => panic!("Expected a conditional"),
    }

    let tokens = tokenize_source("{% for p in ps %}a{% endfor %}b").unwrap();
    let template = TemplateParser::new().parse(tokens).unwrap();
    assert_eq!(template.nodes.len(), 2);
    match &template.nodes[0] {
        AstNode::Loop { item, collection, body } => {
            assert_eq!(item, "p");
            assert_eq!(collection, "ps");
            assert_eq!(body.len(), 1);
            assert_eq!(text(&body[0]), "a");
        }
        _ => panic!("Expected a loop"),
    }
    assert_eq!(text(&template.nodes[1]), "b");

    let tokens = tokenize_source("{% for p in ps %}{% if a %}x{% endif %}y{% endfor %}z").unwrap();
    let template = TemplateParser::new().parse(tokens).unwrap();
    assert_eq!(template.nodes.len(), 2);
    match &template.nodes[0] {
        AstNode::Loop { body, .. } => {
            assert_eq!(body.len(), 2);
            assert!(matches!(&body[0], AstNode::Conditional { body: b, .. } if b.len() == 1));
            assert_eq!(text(&body[1]), "y");
        }
        _ => panic!("Expected a loop"),
    }

    let tokens = tokenize_source("{% if a %}x").unwrap();
    let template = TemplateParser::new().parse(tokens).unwrap();
    assert_eq!(template.nodes.len(), 1);
    let tokens = tokenize_source("{% endif %}y{% endfor %}").unwrap();
    let template = TemplateParser::new().parse(tokens).unwrap();
    assert_eq!(template.nodes.len(), 1);
    assert_eq!(text(&template.nodes[0]), "y");
}

#[test]
fn resolution_with_fallbacks() {
    let config = LuminessConfig {
        template_paths: vec!["themes/admin".to_string(), "themes/default/".to_string(), "".to_string()],
        ..Default::default()
    };
    let resolver = TemplateResolver::new(&config).unwrap();
    assert_eq!(
        resolver.candidate_paths("header"),
        vec!["themes/admin/header.lmtp".to_string(), "themes/default/header.lmtp".to_string(), "header.lmtp".to_string()]
    );
    let existing = vec!["themes/default/header.lmtp".to_string(), "themes/admin/footer-minimal.lmtp".to_string()];
    assert_eq!(resolver.resolve_header(Some("admin"), &existing).unwrap(), "themes/default/header.lmtp");
    assert_eq!(resolver.resolve_footer(Some("minimal"), &existing).unwrap(), "themes/admin/footer-minimal.lmtp");
    match resolver.resolve_footer(None, &existing) {
        Err(LuminessError::TemplateNotFound { name, searched_paths }) => {
            assert_eq!(name, "footer");
            assert_eq!(searched_paths, config.template_paths);
        }
        _ => panic!("Expected template not found"),
    }
    assert_eq!(resolver.candidate_paths("/abs/x"), vec!["/abs/x.lmtp".to_string(); 3]);
}

#[test]
fn syntax_check_agrees_with_adding() {
    let mut engine = Luminess::new();
    for source in ["<h1>{{ title }}</h1>", "{{ unclosed", "{% bogus %}", "@include(x)", "{% if a %}x"] {
        let checked = engine.validate_syntax(source);
        let added = engine.add_template("t", source);
        assert_eq!(checked.is_ok(), added.is_ok(), "{source}");
        if let (Err(a), Err(b)) = (checked, added) {
            assert_eq!(a.to_string(), b.to_string());
        }
    }
}
