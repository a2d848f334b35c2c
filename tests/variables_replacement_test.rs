use json_variables::{from_json, Error, JsonValue, Variables};

fn convert(v: &serde_json::Value) -> JsonValue {
    match v {
        serde_json::Value::Null => JsonValue::Null,
        serde_json::Value::Bool(b) => JsonValue::Bool(*b),
        serde_json::Value::Number(n) => JsonValue::Number(n.to_string()),
        serde_json::Value::String(s) => JsonValue::Str(s.clone()),
        serde_json::Value::Array(a) => JsonValue::Array(a.iter().map(convert).collect()),
        serde_json::Value::Object(m) => {
            JsonValue::Object(m.iter().map(|(k, v)| (k.clone(), convert(v))).collect())
        }
    }
}

fn json(text: &str) -> JsonValue {
    convert(&serde_json::from_str::<serde_json::Value>(text).expect("test input is JSON"))
}

fn parsed(v: &JsonValue) -> serde_json::Value {
    serde_json::from_str(&v.to_json_string()).expect("JSON text of a value parses")
}

fn store(vars: &str) -> Variables {
    from_json(json(vars)).expect("variables form an object")
}

fn resolve(vars: &str, config: &str) -> Result<String, Error> {
    store(vars).replace(config)
}

fn check(vars: &str, config: &str, expected: &str) {
    let result = resolve(vars, config).expect("every placeholder resolves");
    let actual: serde_json::Value = serde_json::from_str(&result).expect("result is JSON");
    let expected: serde_json::Value = serde_json::from_str(expected).expect("expected is JSON");
    assert_eq!(actual, expected);
}

fn undefined(vars: &str, config: &str) -> String {
    match resolve(vars, config) {
        Err(Error::UndefinedVariable(path)) => path,
        other => panic!("expected an undefined variable, got {:?}", other),
    }
}

#[test]
fn single_variable() {
    check(r#"{ "NAME": "someone" }"#, r#"{ "name": "${NAME}" }"#, r#"{ "name": "someone" }"#);
    check(r#"{ "AGE": 23 }"#, r#"{ "age": "${AGE}" }"#, r#"{ "age": 23 }"#);
    check(r#"{ "AGE": 23.5 }"#, r#"{ "age": "${AGE}" }"#, r#"{ "age": 23.5 }"#);
    check(r#"{ "EXISTS": true }"#, r#"{ "exists": "${EXISTS}" }"#, r#"{ "exists": true }"#);
    check(r#"{ "EXISTS": false }"#, r#"{ "exists": "${EXISTS}" }"#, r#"{ "exists": false }"#);
    check(
        r#"{ "NAME": "someone", "COUNTRY": "CH" }"#,
        r#"{ "name": "${NAME}", "country": "${COUNTRY}" }"#,
        r#"{ "name": "someone", "country": "CH" }"#,
    );
}

#[test]
fn scalar_keeps_its_type_exactly() {
    assert_eq!(resolve(r#"{ "AGE": 23 }"#, r#"{ "age": "${AGE}" }"#).unwrap(), r#"{ "age": 23 }"#);
    assert_eq!(resolve(r#"{ "N": null }"#, r#"["${N}"]"#).unwrap(), "[null]");
    assert_eq!(resolve(r#"{ "S": "x" }"#, r#"["${S}"]"#).unwrap(), r#"["x"]"#);
}

#[test]
fn single_invalid_variable() {
    assert_eq!(undefined(r#"{ "NAME": "someone" }"#, r#"{ "name": "${AGE}" }"#), "AGE");
}

#[test]
fn missing_variable_fails() {
    assert_eq!(undefined(r#"{ "NAME": "x" }"#, r#"{ "a": "${NAME}", "b": "${MISSING}" }"#), "MISSING");
    assert_eq!(undefined("{}", "${MISSING}"), "MISSING");
}

#[test]
fn array_variable() {
    check(
        r#"{ "NAMES": ["someone", "someone else"] }"#,
        r#"{ "names": "${NAMES}" }"#,
        r#"{ "names": ["someone", "someone else"] }"#,
    );
    check(
        r#"{ "NAMES": ["someone", "someone else"], "COUNTRIES": ["CH", "NL"] }"#,
        r#"{ "names": "${NAMES}", "countries": "${COUNTRIES}" }"#,
        r#"{ "names": ["someone", "someone else"], "countries": ["CH", "NL"] }"#,
    );
    assert_eq!(resolve(r#"{ "A": [1, [2, 3]] }"#, r#""${A}""#).unwrap(), "[1,[2,3]]");
}

#[test]
fn structure_variable() {
    check(
        r#"{ "PERSON": { "name": "someone", "country": "CH" } }"#,
        r#"{ "person": "${PERSON}" }"#,
        r#"{ "person": { "name": "someone", "country": "CH" } }"#,
    );
    check(
        r#"{ "PERSON": { "name": "someone", "country": "CH" }, "COUNTRY": { "short": "CH", "long": "Switzerland" } }"#,
        r#"{ "person": "${PERSON}", "country": "${COUNTRY}" }"#,
        r#"{ "person": { "country": "CH", "name": "someone" }, "country": { "short": "CH", "long": "Switzerland" } }"#,
    );
}

#[test]
fn different_variables() {
    check(
        r#"{ "NAME": "someone", "COUNTRIES": ["CH", "NL"] }"#,
        r#"{ "name": "${NAME}", "countries": "${COUNTRIES}" }"#,
        r#"{ "name": "someone", "countries": ["CH", "NL"] }"#,
    );
    check(
        r#"{ "NAME": "someone", "PERSON": { "name": "someone", "country": "CH" } }"#,
        r#"{ "name": "${NAME}", "person": "${PERSON}" }"#,
        r#"{ "name": "someone", "person": { "name": "someone", "country": "CH" } }"#,
    );
    check(
        r#"{ "COUNTRIES": ["CH", "NL"], "PERSON": { "name": "someone", "country": "CH" } }"#,
        r#"{ "countries": "${COUNTRIES}", "person": "${PERSON}" }"#,
        r#"{ "countries": ["CH", "NL"], "person": { "name": "someone", "country": "CH" } }"#,
    );
    check(
        r#"{ "NAME": "someone", "COUNTRIES": ["CH", "NL"], "PERSON": { "name": "someone", "country": "CH" } }"#,
        r#"{ "name": "${NAME}", "countries": "${COUNTRIES}", "person": "${PERSON}" }"#,
        r#"{ "name": "someone", "countries": ["CH", "NL"], "person": { "name": "someone", "country": "CH" } }"#,
    );
}

#[test]
fn map_variable_access() {
    check(r#"{ "PERSON": { "name": "someone" } }"#, r#"{ "name": "${PERSON.name}" }"#, r#"{ "name": "someone" }"#);
    check(
        r#"{ "PERSON": { "name": "someone", "age": 23 } }"#,
        r#"{ "name": "${PERSON.name}", "age": "${PERSON.age}" }"#,
        r#"{ "name": "someone", "age": 23 }"#,
    );
    check(
        r#"{ "PERSON": { "name": "someone", "countries": ["CH", "NL"] } }"#,
        r#"{ "name": "${PERSON.name}", "countries": "${PERSON.countries}" }"#,
        r#"{ "name": "someone", "countries": ["CH", "NL"] }"#,
    );
    check(
        r#"{ "PERSON": { "name": "someone", "data": { "id": 1 } } }"#,
        r#"{ "name": "${PERSON.name}", "data": "${PERSON.data}" }"#,
        r#"{ "name": "someone", "data": { "id" : 1} }"#,
    );
}

#[test]
fn map_invalid_variable_access() {
    assert_eq!(undefined(r#"{ "PERSON": { "name": "someone" } }"#, r#"{ "name": "${PERSON.age}" }"#), "PERSON.age");
}

#[test]
fn map_variable_access_deep() {
    check(
        r#"{ "PERSON": { "name": { "sirname": "someone" } } }"#,
        r#"{ "name": "${PERSON.name.sirname}" }"#,
        r#"{ "name": "someone" }"#,
    );
    check(r#"{ "PERSON": { "name": { "sirname": "x" } } }"#, r#""${PERSON.name.sirname}""#, r#""x""#);
    check(r#"{ "P": { "countries": ["CH", "NL"] } }"#, r#""${P.countries.1}""#, r#""NL""#);
}

#[test]
fn map_invalid_variable_access_deep() {
    assert_eq!(
        undefined(r#"{ "PERSON": { "name": { "sirname": "someone" } } }"#, r#"{ "name": "${PERSON.name.age}" }"#),
        "PERSON.name.age"
    );
}

#[test]
fn variable_access_inside_string() {
    check(r#"{ "NAME": "someone" }"#, r#"{ "name": "name is ${NAME}" }"#, r#"{ "name": "name is someone" }"#);
    check(r#"{ "AGE": 23 }"#, r#"{ "age": "age is ${AGE}" }"#, r#"{ "age": "age is 23" }"#);
    check(r#"{ "AGE": 23.5 }"#, r#"{ "age": "age is ${AGE}" }"#, r#"{ "age": "age is 23.5" }"#);
    check(r#"{ "EXISTS": true }"#, r#"{ "exists": "exists? ${EXISTS}" }"#, r#"{ "exists": "exists? true" }"#);
    check(r#"{ "EXISTS": false }"#, r#"{ "exists": "exists? ${EXISTS}" }"#, r#"{ "exists": "exists? false" }"#);
}

#[test]
fn interpolation_keeps_escapes_inside_strings() {
    check(r#"{ "Q": "say \"hi\"" }"#, r#"{ "q": "she said ${Q}" }"#, r#"{ "q": "she said say \"hi\"" }"#);
}

#[test]
fn repeated_placeholder_replaced_everywhere() {
    assert_eq!(
        resolve(r#"{ "A": 1 }"#, r#"["${A}", "x${A}y", "${A}"]"#).unwrap(),
        r#"[1, "x1y", 1]"#
    );
}

#[test]
fn array_variables_index() {
    check(r#"{ "NAMES": ["someone", "someone_else"] }"#, r#"{ "name": "${NAMES.0}" }"#, r#"{ "name": "someone" }"#);
    check(r#"{ "NAMES": ["someone", "someone_else"] }"#, r#"{ "name": "${NAMES.1}" }"#, r#"{ "name": "someone_else" }"#);
    check(r#"{ "NAMES": ["a", "b"] }"#, r#""${NAMES.1}""#, r#""b""#);
}

#[test]
fn array_variable_invalid_index() {
    assert_eq!(undefined(r#"{ "NAMES": ["someone", "someone_else"] }"#, r#"{ "name": "${NAMES.2}" }"#), "NAMES.2");
    assert_eq!(undefined(r#"{ "NAMES": ["a", "b"] }"#, r#""${NAMES.01}""#), "NAMES.01");
}

#[test]
fn replace_is_idempotent_without_placeholders() {
    let s = store(r#"{ "NAME": "x", "AGE": 23 }"#);
    let once = s.replace(r#"{ "name": "${NAME}", "age": "age ${AGE}" }"#).unwrap();
    let twice = s.replace(&once).unwrap();
    assert_eq!(once, twice);
    assert_eq!(s.replace("no placeholders here").unwrap(), "no placeholders here");
    assert_eq!(s.replace("").unwrap(), "");
}

#[test]
fn custom_pattern_changes_recognized_tokens() {
    let vars = match json(r#"{ "NAME": "John" }"#) {
        JsonValue::Object(es) => es,
        _ => unreachable!(),
    };
    let s = Variables::new(vars, Some(r"\?\[([a-zA-Z0-9_.]+)\]".to_string())).unwrap();
    assert_eq!(s.replace(r#"{ "name": "?[NAME]" }"#).unwrap(), r#"{ "name": "John" }"#);
    assert_eq!(s.replace(r#"{ "name": "${NAME}" }"#).unwrap(), r#"{ "name": "${NAME}" }"#);
    assert_eq!(s.pattern().as_str(), r"\?\[([a-zA-Z0-9_.]+)\]");
}

#[test]
fn invalid_pattern_is_reported() {
    match Variables::new(Vec::new(), Some("(".to_string())) {
        Err(Error::InvalidPattern(p)) => assert_eq!(p, "("),
        other => panic!("expected an invalid pattern, got {:?}", other.map(|_| ())),
    }
}

#[test]
fn pattern_without_group_fails_as_undefined() {
    let s = Variables::new(Vec::new(), Some(r"\$X".to_string())).unwrap();
    assert_eq!(s.replace("$X").map_err(|e| e.message()), Err("Variable called but never defined: ".to_string()));
}

#[test]
fn reserved_pattern_key_is_not_a_variable() {
    let mapping = match json(r#"{ "NAME": "John", "pattern": "\\?\\[([a-zA-Z0-9_.]+)\\]" }"#) {
        JsonValue::Object(es) => es,
        _ => unreachable!(),
    };
    let s = Variables::deserialize(mapping).unwrap();
    assert!(s.get("pattern").is_none());
    assert!(s.get("NAME").is_some());
    assert_eq!(s.replace(r#""?[NAME]""#).unwrap(), r#""John""#);
    match s.replace(r#""?[pattern]""#) {
        Err(Error::UndefinedVariable(p)) => assert_eq!(p, "pattern"),
        other => panic!("expected an undefined variable, got {:?}", other),
    }
}

#[test]
fn non_string_pattern_key_is_rejected() {
    let mapping = match json(r#"{ "pattern": 3 }"#) {
        JsonValue::Object(es) => es,
        _ => unreachable!(),
    };
    assert!(matches!(Variables::deserialize(mapping), Err(Error::InvalidInputShape)));
}

#[test]
fn from_json_needs_an_object() {
    assert!(matches!(from_json(json("[1, 2]")), Err(Error::InvalidInputShape)));
    assert!(matches!(from_json(json("3")), Err(Error::InvalidInputShape)));
    assert_eq!(store(r#"{ "A": 1 }"#).pattern().as_str(), json_variables::DEFAULT_PATTERN);
}

#[test]
fn variables_serialize() {
    let cases = [
        r#"{ "NAME": "person" }"#,
        r#"{ "NAME": "person", "AGE": 1 }"#,
        r#"{ "NAME": "person", "EXISTS": true }"#,
        r#"{ "NAME": "person", "COUNTRIES": ["NL", "CH"] }"#,
        r#"{ "NAME": "person", "COUNTRY": { "short": "CH", "long": "Switzerland" }}"#,
    ];
    for var in cases {
        let s = store(var);
        let expected: serde_json::Map<String, serde_json::Value> = serde_json::from_str(var).unwrap();
        assert_eq!(s.serialize(), serde_json::to_string(&expected).unwrap());
        assert_eq!(s.variables().len(), expected.len());
    }
}

#[test]
fn json_text_escapes_strings() {
    let v = JsonValue::Object(vec![("a\"b".to_string(), JsonValue::Str("line\nnext".to_string()))]);
    assert_eq!(v.to_json_string(), r#"{"a\"b":"line\nnext"}"#);
    assert_eq!(JsonValue::Str("q\"".to_string()).to_display_string(), r#"q\""#);
    assert_eq!(JsonValue::Number("23.5".to_string()).to_display_string(), "23.5");
}

#[test]
fn regex_text_round_trip() {
    let p = json_variables::deserialize_regex(r"\?\[([a-z]+)\]").unwrap();
    assert_eq!(json_variables::serialize_regex(&p), r"\?\[([a-z]+)\]");
    assert!(matches!(json_variables::deserialize_regex("(["), Err(Error::InvalidPattern(ref s)) if s == "(["));
    let d = json_variables::default_pattern().unwrap();
    assert_eq!(d.as_str(), r"\$\{([a-zA-Z0-9_.]+)\}");
    let found = d.captures(r#"a ${X.y} b ${Z}"#);
    assert_eq!(found, vec![("${X.y}".to_string(), Some("X.y".to_string())), ("${Z}".to_string(), Some("Z".to_string()))]);
}

#[test]
fn variables_deserialize() {
    let cases = [
        r#"{ "NAME": "person" }"#,
        r#"{ "NAME": "person", "AGE": 1 }"#,
        r#"{ "NAME": "person", "EXISTS": true }"#,
        r#"{ "NAME": "person", "COUNTRIES": ["NL", "CH"] }"#,
        r#"{ "NAME": "person", "COUNTRY": { "short": "CH", "long": "Switzerland" }}"#,
    ];
    for var in cases {
        let mapping = match json(var) {
            JsonValue::Object(es) => es,
            _ => unreachable!(),
        };
        let s = Variables::deserialize(mapping).unwrap();
        let expected: serde_json::Value = serde_json::from_str(var).unwrap();
        let actual: serde_json::Value = serde_json::from_str(&s.serialize()).unwrap();
        assert_eq!(actual, expected);
        assert_eq!(s.pattern().as_str(), json_variables::DEFAULT_PATTERN);
    }
}

#[test]
fn get_resolves_paths() {
    let s = store(r#"{ "PERSON": { "name": { "sirname": "x" }, "countries": ["CH", "NL"] } }"#);
    assert_eq!(s.get("PERSON.name.sirname").unwrap().to_json_string(), r#""x""#);
    assert_eq!(s.get("PERSON.countries.0").unwrap().to_json_string(), r#""CH""#);
    assert!(s.get("PERSON.countries.2").is_none());
    assert!(s.get("PERSON.sirname").is_none());
    assert_eq!(s.get("PERSON.countries").unwrap().to_json_string(), r#"["CH","NL"]"#);
}

#[test]
fn count_nodes_counts_every_part() {
    assert_eq!(json_variables::count_nodes(&json(r#"{ "A": [1, 2], "B": { "c": null } }"#)), Some(6));
    assert_eq!(json_variables::count_nodes(&json("7")), Some(1));
}

#[test]
fn json_text_escapes_control_characters() {
    let v = JsonValue::Str("a\u{1f}\u{8}\t\u{c}\r\\/é".to_string());
    assert_eq!(v.to_json_string(), "\"a\\u001f\\b\\t\\f\\r\\\\/é\"");
    assert_eq!(v.to_display_string(), "a\\u001f\\b\\t\\f\\r\\\\/é");
}

#[test]
fn from_value_reads_the_pattern_key() {
    let s = Variables::from_value(json(r#"{ "NAME": "John", "pattern": "<([A-Z]+)>" }"#)).unwrap();
    assert_eq!(s.pattern().as_str(), "<([A-Z]+)>");
    assert_eq!(s.replace(r#"{ "n": "<NAME>" }"#).unwrap(), r#"{ "n": "John" }"#);
    assert!(s.get("pattern").is_none());
    assert!(matches!(Variables::from_value(json("[1]")), Err(Error::InvalidInputShape)));
}

#[test]
fn first_pattern_entry_wins() {
    let mapping = vec![
        ("pattern".to_string(), JsonValue::Str("<([A-Z]+)>".to_string())),
        ("pattern".to_string(), JsonValue::Str("#([A-Z]+)#".to_string())),
        ("A".to_string(), JsonValue::Number("1".to_string())),
    ];
    let s = Variables::deserialize(mapping).unwrap();
    assert_eq!(s.pattern().as_str(), "<([A-Z]+)>");
    assert_eq!(s.variables().len(), 1);
}

#[test]
fn error_messages() {
    assert_eq!(Error::InvalidPattern("(".to_string()).message(), "Invalid regex pattern (");
    assert_eq!(Error::InvalidInputShape.message(), "Invalid json format");
    assert_eq!(Error::UndefinedVariable("A.b".to_string()).message(), "Variable called but never defined: A.b");
}

#[test]
fn substitute_given_captures() {
    let s = store(r#"{ "AGE": 23, "NAME": "x", "L": [1, 2] }"#);
    let caps = vec![
        ("${AGE}".to_string(), Some("AGE".to_string())),
        ("${NAME}".to_string(), Some("NAME".to_string())),
        ("${L}".to_string(), Some("L".to_string())),
    ];
    assert_eq!(
        s.substitute_captures(r#"{ "a": "${AGE}", "n": "hi ${NAME}", "l": "${L}" }"#, &caps).unwrap(),
        r#"{ "a": 23, "n": "hi x", "l": [1,2] }"#
    );
    let missing = vec![("<M>".to_string(), Some("M".to_string()))];
    assert!(matches!(s.substitute_captures("<M>", &missing), Err(Error::UndefinedVariable(ref p)) if p == "M"));
    let no_group = vec![("<M>".to_string(), None)];
    assert!(matches!(s.substitute_captures("<M>", &no_group), Err(Error::UndefinedVariable(ref p)) if p.is_empty()));
    assert_eq!(s.substitute_captures("unchanged", &Vec::new()).unwrap(), "unchanged");
}
