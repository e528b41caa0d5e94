use luminess::context::Context;
use luminess::json::{JsonNumber, JsonValue};

fn s(x: &str) -> JsonValue {
    JsonValue::String(x.to_string())
}

fn obj(members: Vec<(&str, JsonValue)>) -> JsonValue {
    JsonValue::Object(members.into_iter().map(|(k, v)| (k.to_string(), v)).collect())
}

#[test]
fn basic_context_operations() {
    let mut context = Context::new();
    context.insert("name", &"John");
    context.insert("age", &25);

    let name_path = vec!["name".to_string()];
    let age_path = vec!["age".to_string()];

    assert_eq!(context.get_value(&name_path).unwrap().as_str().unwrap(), "John");
    assert_eq!(context.get_value(&age_path).unwrap().as_i64().unwrap(), 25);
}

#[test]
fn nested_value_access() {
    let mut context = Context::new();
    let user = obj(vec![
        ("name", s("John")),
        (
            "profile",
            obj(vec![
                ("email", s("john@example.com")),
                ("settings", obj(vec![("theme", s("dark"))])),
            ]),
        ),
    ]);
    context.insert_object("user", &user);

    let email_path = vec!["user".to_string(), "profile".to_string(), "email".to_string()];
    let theme_path = vec!["user".to_string(), "profile".to_string(), "settings".to_string(), "theme".to_string()];

    assert_eq!(context.get_value(&email_path).unwrap().as_str().unwrap(), "john@example.com");
    assert_eq!(context.get_value(&theme_path).unwrap().as_str().unwrap(), "dark");
}

#[test]
fn array_items_by_index() {
    let mut context = Context::new();
    let posts = JsonValue::Array(vec![obj(vec![("title", s("first"))]), obj(vec![("title", s("second"))])]);
    context.insert_object("posts", &posts);
    let path = |p: &[&str]| p.iter().map(|x| x.to_string()).collect::<Vec<String>>();
    assert_eq!(context.get_value(&path(&["posts", "1", "title"])).unwrap().as_str().unwrap(), "second");
    assert_eq!(context.get_value(&path(&["posts", "+0", "title"])).unwrap().as_str().unwrap(), "first");
    assert!(context.get_value(&path(&["posts", "2"])).is_none());
    assert!(context.get_value(&path(&["posts", "-1"])).is_none());
    assert!(context.get_value(&path(&["posts", "x"])).is_none());
    assert!(context.get_value(&path(&["missing"])).is_none());
    assert!(context.get_value(&[]).is_none());
}

#[test]
fn truthiness_of_values() {
    let mut c = Context::new();
    c.insert("yes", &true);
    c.insert("no", &false);
    c.insert("empty", &"");
    c.insert("word", &"w");
    c.insert("zero", &0);
    c.insert_object("null", &JsonValue::Null);
    c.insert_object("none", &JsonValue::Array(vec![]));
    c.insert_object("obj", &obj(vec![("a", JsonValue::Bool(false))]));
    let t = |k: &str| c.is_truthy(&[k.to_string()]);
    assert!(t("yes"));
    assert!(!t("no"));
    assert!(!t("empty"));
    assert!(t("word"));
    assert!(t("zero"));
    assert!(!t("null"));
    assert!(!t("none"));
    assert!(t("obj"));
    assert!(!t("absent"));
}

#[test]
fn insert_replaces_and_keys_are_unique() {
    let mut c = Context::new();
    c.insert("a", &1);
    c.insert("b", &2);
    c.insert("a", &"again");
    let mut keys: Vec<String> = c.keys().into_iter().cloned().collect();
    keys.sort();
    assert_eq!(keys, vec!["a".to_string(), "b".to_string()]);
    assert_eq!(c.get_value(&["a".to_string()]).unwrap().as_str(), Some("again"));
}

#[test]
fn from_json_takes_objects_only() {
    let c = Context::from_json(obj(vec![("x", s("1")), ("y", JsonValue::Bool(true))])).unwrap();
    assert_eq!(c.get_value(&["x".to_string()]).unwrap().as_str(), Some("1"));
    match Context::from_json(JsonValue::Array(vec![])) {
        Err(luminess::error::LuminessError::Context { message, .. }) => {
            assert_eq!(message, "Context must be a JSON object")
        }
        _ => panic!("Expected a context error"),
    }
}

#[test]
fn values_as_output_text() {
    let c = Context::new();
    assert_eq!(c.value_to_string(&s("plain \"text\"")), "plain \"text\"");
    assert_eq!(c.value_to_string(&JsonValue::Number(JsonNumber::PosInt(42))), "42");
    assert_eq!(c.value_to_string(&JsonValue::Number(JsonNumber::NegInt(-7))), "-7");
    assert_eq!(c.value_to_string(&JsonValue::Number(JsonNumber::Float("1.5".to_string()))), "1.5");
    assert_eq!(c.value_to_string(&JsonValue::Bool(true)), "true");
    assert_eq!(c.value_to_string(&JsonValue::Null), "");
    let v = obj(vec![
        ("a", JsonValue::Array(vec![JsonValue::Number(JsonNumber::PosInt(1)), JsonValue::Null])),
        ("b\n", s("q\"\u{1}")),
    ]);
    assert_eq!(c.value_to_string(&v), "{\"a\":[1,null],\"b\\n\":\"q\\\"\\u0001\"}");
}

#[test]
fn clone_keeps_values() {
    let mut c = Context::new();
    c.insert("k", &"v");
    let d = c.clone();
    c.insert("k", &"w");
    assert_eq!(d.get_value(&["k".to_string()]).unwrap().as_str(), Some("v"));
    assert_eq!(c.get_value(&["k".to_string()]).unwrap().as_str(), Some("w"));
}

#[test]
fn arrays_and_null_are_recognised() {
    let list = JsonValue::Array(vec![s("a"), JsonValue::Null]);
    assert_eq!(list.as_array().unwrap().len(), 2);
    assert!(list.as_array().unwrap()[1].is_null());
    assert!(!list.is_null());
    assert!(s("a").as_array().is_none());
    assert!(JsonValue::Null.is_null());
    assert!(JsonValue::Null.as_str().is_none());
    assert_eq!(JsonValue::Number(JsonNumber::NegInt(-3)).as_i64(), Some(-3));
    assert_eq!(JsonValue::Number(JsonNumber::PosInt(u64::MAX)).as_i64(), None);
}
