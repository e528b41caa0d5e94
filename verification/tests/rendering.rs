use luminess::context::Context;
use luminess::error::LuminessError;
use luminess::json::{JsonNumber, JsonValue};
use luminess::parser::{AstNode, Template, TemplateParser};
use luminess::lexer::tokenize_source;
use luminess::renderer::{IncludeRequest, OutputFormat, RenderStep, TemplateRenderer};
use luminess::resolver::TemplateResolver;
use luminess::LuminessConfig;

#[test]
fn basic_rendering() {
    let config = LuminessConfig::default();
    let resolver = TemplateResolver::new(&config).unwrap();
    let renderer = TemplateRenderer::new(&config, &resolver);

    let template = Template {
        nodes: vec![
            AstNode::Text("Hello ".to_string()),
            AstNode::Variable {
                path: vec!["name".to_string()],
                directives: vec![],
                default: Some("World".to_string()),
            },
            AstNode::Text("!".to_string()),
        ],
    };

    let mut context = Context::new();
    context.insert("name", &"Luminess");

    let result = renderer.render(&template, &context).finish().unwrap();
    assert_eq!(result, "Hello Luminess!");
}

fn render_source(source: &str, context: &Context) -> Result<String, LuminessError> {
    let config = LuminessConfig::default();
    let resolver = TemplateResolver::new(&config).unwrap();
    let renderer = TemplateRenderer::new(&config, &resolver);
    let tokens = tokenize_source(source).unwrap();
    let template = TemplateParser::new().parse(tokens).unwrap();
    renderer.render(&template, context).finish()
}

fn s(x: &str) -> JsonValue {
    JsonValue::String(x.to_string())
}

#[test]
fn defaults_and_directive_chains() {
    let mut c = Context::new();
    c.insert("title", &"my app");
    assert_eq!(render_source("<h1>{{ title | UCASE, ESCAPE_HTML, \"Welcome\" }}</h1>", &c).unwrap(), "<h1>MY APP</h1>");
    assert_eq!(render_source("{{ missing | UCASE, 'Welcome' }}", &c).unwrap(), "WELCOME");
    assert_eq!(render_source("[{{ missing }}]", &c).unwrap(), "[]");
}

#[test]
fn unknown_directive_stops_rendering() {
    let c = Context::new();
    match render_source("a{{ x | NOPE }}b", &c) {
        Err(LuminessError::Directive { directive, .. }) => assert_eq!(directive, "NOPE"),
        other => panic!("expected a directive error, got {:?}", other),
    }
}

#[test]
fn conditionals_and_loops() {
    let mut c = Context::new();
    c.insert_object(
        "user",
        &JsonValue::Object(vec![
            ("authenticated".to_string(), JsonValue::Bool(true)),
            ("name".to_string(), s("<James>")),
        ]),
    );
    c.insert_object(
        "posts",
        &JsonValue::Array(vec![
            JsonValue::Object(vec![("title".to_string(), s("A"))]),
            JsonValue::Object(vec![("title".to_string(), s("B"))]),
        ]),
    );
    assert_eq!(
        render_source("{% if user.authenticated %}{% else %}out{% endif %}", &c).unwrap(),
        ""
    );
    assert_eq!(
        render_source("{% if user.missing %}{% else %}out{% endif %}", &c).unwrap(),
        "out"
    );
    assert_eq!(
        render_source("{% if user.authenticated %}Hi {{ user.name | ESCAPE_HTML }}{% endif %}!", &c).unwrap(),
        "Hi &lt;James&gt;!"
    );
    assert_eq!(
        render_source("{% for post in posts %}[{{ post.title }}]{% endfor %}.", &c).unwrap(),
        "[A][B]."
    );
    assert_eq!(
        render_source("{% if user.missing %}yes{% else %}no{% endif %}!", &c).unwrap(),
        "no!"
    );
    assert_eq!(
        render_source("{% if user.authenticated %}yes{% else %}no{% endif %}!", &c).unwrap(),
        "yes!"
    );
    assert_eq!(
        render_source(
            "{% for post in posts %}{% if user.authenticated %}<{{ post.title }}>{% endif %}{% endfor %}|",
            &c
        )
        .unwrap(),
        "<A><B>|"
    );
    assert_eq!(render_source("{% for p in user %}x{% endfor %}", &c).unwrap(), "");
}

#[test]
fn numbers_and_raw_text() {
    let mut c = Context::new();
    c.insert_object("n", &JsonValue::Number(JsonNumber::NegInt(-3)));
    assert_eq!(render_source("{{ n }}{% raw %}{{ n }}{% endraw %}", &c).unwrap(), "-3{{ n }}");
}

#[test]
fn includes_are_rendered_in_place() {
    let config = LuminessConfig::default();
    let resolver = TemplateResolver::new(&config).unwrap();
    let renderer = TemplateRenderer::new(&config, &resolver);
    let template = TemplateParser::new()
        .parse(tokenize_source("a@include_header('admin')b@include(\"nav\")c").unwrap())
        .unwrap();
    let mut ctx = Context::new();
    ctx.insert("x", &"X");
    let plan = renderer.render(&template, &ctx);
    assert_eq!(plan.include_count(), 2);
    let requests = plan.includes();
    assert!(matches!(requests[0], IncludeRequest::Header(Some(v)) if v == "admin"));
    assert!(matches!(requests[1], IncludeRequest::Template(t) if t == "nav"));
    assert!(matches!(&plan.steps[0], RenderStep::Text(t) if t == "a"));
    let plan = renderer.expand(plan, vec![Ok("<H {{ x }}>".to_string()), Ok("<N>".to_string())], &ctx);
    assert_eq!(plan.include_count(), 0);
    assert_eq!(plan.finish().unwrap(), "a<H X>b<N>c");

    let plan = renderer.render(&template, &ctx);
    let failed = renderer.expand(
        plan,
        vec![Err(LuminessError::template_not_found("header")), Ok("<N>".to_string())],
        &ctx,
    );
    assert!(matches!(failed.finish(), Err(LuminessError::TemplateNotFound { name, .. }) if name == "header"));

    let plan = renderer.render(&template, &ctx);
    let bad = renderer.expand(plan, vec![Ok("{{ unclosed".to_string()), Ok("<N>".to_string())], &ctx);
    assert!(matches!(bad.finish(), Err(LuminessError::Lexer { .. })));
}

#[test]
fn nested_includes_and_cycles() {
    let config = LuminessConfig::default();
    let resolver = TemplateResolver::new(&config).unwrap();
    let renderer = TemplateRenderer::new(&config, &resolver);
    let ctx = Context::new();
    let template = TemplateParser::new().parse(tokenize_source("[@include('a')]").unwrap()).unwrap();

    let plan = renderer.render(&template, &ctx);
    let plan = renderer.expand(plan, vec![Ok("A(@include('b'))".to_string())], &ctx);
    assert_eq!(plan.include_count(), 1);
    match &plan.steps[2] {
        RenderStep::Include(IncludeRequest::Template(t), chain) => {
            assert_eq!(t, "b");
            assert_eq!(chain.len(), 1);
        }
        _ => panic!("Expected a nested include"),
    }
    let plan = renderer.expand(plan, vec![Ok("B".to_string())], &ctx);
    assert_eq!(plan.finish().unwrap(), "[A(B)]");

    let plan = renderer.render(&template, &ctx);
    let plan = renderer.expand(plan, vec![Ok("A@include('b')".to_string())], &ctx);
    let plan = renderer.expand(plan, vec![Ok("B@include_header('x')@include('a')".to_string())], &ctx);
    assert_eq!(plan.include_count(), 1);
    match plan.finish() {
        Err(LuminessError::CircularReference { chain }) => assert_eq!(chain, "a -> b -> a"),
        _ => panic!("Expected a circular reference"),
    }
}

#[test]
fn content_types() {
    assert_eq!(OutputFormat::Html.content_type(), "text/html; charset=utf-8");
    assert_eq!(OutputFormat::Json.content_type(), "application/json; charset=utf-8");
    assert_eq!(OutputFormat::Text.content_type(), "text/plain; charset=utf-8");
    assert_eq!(OutputFormat::Xml.content_type(), "application/xml; charset=utf-8");
}

#[test]
fn renderer_uses_the_given_resolver() {
    let config = LuminessConfig::default().clone();
    let config = LuminessConfig { extension: "html".to_string(), ..config };
    let resolver = TemplateResolver::new(&config).unwrap();
    let renderer = TemplateRenderer::new(&config, &resolver);
    assert_eq!(renderer.include_resolver().extension(), "html");
    assert_eq!(renderer.include_resolver().template_paths(), &["templates".to_string()][..]);
}

#[test]
fn plain_source_renders_as_itself() {
    let mut c = Context::new();
    c.insert("x", &"unused");
    let source = "Plain text { with } braces, 100% and @ signs.\n";
    assert_eq!(render_source(source, &c).unwrap(), source);
    assert_eq!(render_source("", &c).unwrap(), "");
}

#[test]
fn dates_in_templates() {
    let mut c = Context::new();
    c.insert("created", &1609459200u64);
    c.insert("bad", &"soon");
    assert_eq!(
        render_source("on {{ created | FORMAT_DATE }}.", &c).unwrap(),
        "on formatted_date_1609459200_%Y-%m-%d."
    );
    match render_source("a{{ bad | FORMAT_DATE }}b", &c) {
        Err(LuminessError::Directive { directive, message, .. }) => {
            assert_eq!(directive, "FORMAT_DATE");
            assert_eq!(message, "Invalid timestamp");
        }
        _ => panic!("Expected a directive error"),
    }
}
