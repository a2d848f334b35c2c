use json_variables::{resolve_document, to_snake_case, DocumentOptions, Error, JsonValue};

fn convert(v: &serde_json::Value) -> JsonValue {
    match v {
        serde_json::Value::Null => JsonValue::Null,
        serde_json::Value::Bool(b) => JsonValue::Bool(*b),
        serde_json::Value::Number(n) => JsonValue::Number(n.to_string()),
        serde_json::Value::String(s) => JsonValue::Str(s.clone()),
        serde_json::Value::Array(a) => JsonValue::Array(a.iter().map(convert).collect()),
        serde_json::Value::Object(m) => {
            JsonValue::Object(m.iter().map(|(k, v)| (k.clone(), convert(v))).collect())
        }
    }
}

fn json(text: &str) -> JsonValue {
    convert(&serde_json::from_str::<serde_json::Value>(text).expect("test input is JSON"))
}

fn parsed(v: &JsonValue) -> serde_json::Value {
    serde_json::from_str(&v.to_json_string()).expect("JSON text of a value parses")
}

fn resolve_doc(doc: &str, options: &DocumentOptions) -> Result<serde_json::Value, Error> {
    let text = resolve_document(&json(doc), options)?;
    Ok(serde_json::from_str(&text).expect("resolved data is JSON"))
}

fn person_options() -> DocumentOptions {
    DocumentOptions::for_type("PersonData")
}

#[test]
fn pattern() {
    let doc = r#"
        {
            "variables":
            {
                "NAME": "John",
                "pattern": "\\?\\[([a-zA-Z0-9_.]+)\\]"
            },
            "person_data": { "name": "?[NAME]", "age": 23 }
        }"#;
    let x = resolve_doc(doc, &person_options()).expect("Unable to set variables");
    assert_eq!(x["name"], "John");
    assert_eq!(x["age"], 23);
}

#[test]
fn data_field_name_default() {
    let doc = r#"
        {
            "variables": { "NAME": "John" },
            "person_data": { "name": "${NAME}", "age": 23 }
        }"#;
    let x = resolve_doc(doc, &person_options()).expect("Unable to set variables");
    assert_eq!(x["name"], "John");
    assert_eq!(x["age"], 23);
}

#[test]
fn data_field_name_camel_case() {
    let mut options = person_options();
    options.data_field_name = "personData".to_string();
    let doc = r#"
        {
            "variables": { "NAME": "John" },
            "personData": { "name": "${NAME}", "age": 23 }
        }"#;
    let x = resolve_doc(doc, &options).expect("Unable to set variables");
    assert_eq!(x["name"], "John");
    assert_eq!(x["age"], 23);
}

#[test]
fn variables_field_name() {
    let mut options = person_options();
    options.variables_field_name = "vars".to_string();
    let doc = r#"
        {
            "vars": { "NAME": "John" },
            "person_data": { "name": "${NAME}", "age": 23 }
        }"#;
    let x = resolve_doc(doc, &options).expect("Unable to set variables");
    assert_eq!(x["name"], "John");
    assert_eq!(x["age"], 23);
}

#[test]
fn flatten_field_name() {
    let mut options = person_options();
    options.flatten_data_field = true;
    let doc = r#"
        {
            "variables": { "NAME": "John" },
            "name": "${NAME}",
            "age": 23
        }"#;
    let x = resolve_doc(doc, &options).expect("Unable to set variables");
    assert_eq!(x["name"], "John");
    assert_eq!(x["age"], 23);
    assert!(x.get("variables").is_none());
}

fn object_options() -> DocumentOptions {
    DocumentOptions::for_type("Object")
}

#[test]
fn parse() {
    let doc = r#"
        {
            "variables": { "NAME": "John" },
            "object": { "name": "${NAME}" }
        }"#;
    let object = resolve_doc(doc, &object_options()).expect("Unable to create object");
    assert_eq!(object["name"], "John");
}

#[test]
#[should_panic]
fn incorrect_variable_parse() {
    let doc = r#"
        {
            "variables": { "NAME": "John" },
            "object": { "name": "${TEST}" }
        }"#;
    let _ = resolve_doc(doc, &object_options()).expect("Unable to create object");
}

#[test]
#[should_panic]
fn incorrect_casing_parse() {
    let doc = r#"
        {
            "variables": { "NAME": "John" },
            "Object": { "name": "${NAME}" }
        }"#;
    let _ = resolve_doc(doc, &object_options()).expect("Unable to create object");
}

#[test]
fn no_variables() {
    let doc = r#"
            {
                "object": { "name": "John" }
            }"#;
    let object = resolve_doc(doc, &object_options()).expect("Unable to create object");
    assert_eq!(object["name"], "John");
}

#[test]
#[should_panic]
fn no_variables_with_variable_definition() {
    let doc = r#"
            {
                "object": { "name": "${NAME}" }
            }"#;
    let _ = resolve_doc(doc, &object_options()).expect("Unable to create object");
}

#[test]
fn document_errors() {
    let options = object_options();
    assert!(matches!(resolve_doc("[1]", &options), Err(Error::InvalidInputShape)));
    assert!(matches!(resolve_doc(r#"{ "variables": 1, "object": {} }"#, &options), Err(Error::InvalidInputShape)));
    assert!(matches!(resolve_doc(r#"{ "other": {} }"#, &options), Err(Error::InvalidInputShape)));
    match resolve_doc(r#"{ "variables": { "pattern": "(" }, "object": {} }"#, &options) {
        Err(Error::InvalidPattern(p)) => assert_eq!(p, "("),
        other => panic!("expected an invalid pattern, got {:?}", other),
    }
    match resolve_doc(r#"{ "object": { "a": "${NAME}" } }"#, &options) {
        Err(Error::UndefinedVariable(p)) => assert_eq!(p, "NAME"),
        other => panic!("expected an undefined variable, got {:?}", other),
    }
}

#[test]
fn snake_case_names() {
    assert_eq!(to_snake_case("PersonData"), "person_data");
    assert_eq!(to_snake_case("Object"), "object");
    assert_eq!(to_snake_case("already_snake"), "already_snake");
    assert_eq!(to_snake_case("aB"), "ab");
    assert_eq!(to_snake_case("ABC"), "a_b_c");
    assert_eq!(to_snake_case(""), "");
    let options = DocumentOptions::for_type("PersonData");
    assert_eq!(options.data_field_name, "person_data");
    assert_eq!(options.variables_field_name, "variables");
    assert!(!options.flatten_data_field);
}
