use csilctl::csil::{
    ControlOp, CsilSpec, File, FloatNum, Group, GroupEntry, GroupKey, Literal, Occurrence, Rule, RuleKind, TypeExpr,
};
use csilctl::prompt::{answer_value, default_value, fill_request, literal_to_json, prompt_plan, AskKind};
use csilctl::jsontext::json_to_text;
use csilctl::value::{Json, JsonNumber, NumberKind};

fn b(n: &str) -> TypeExpr {
    TypeExpr::Builtin(n.to_string())
}
fn r(n: &str) -> TypeExpr {
    TypeExpr::Reference(n.to_string())
}
fn def(n: &str, t: TypeExpr) -> Rule {
    Rule { name: n.to_string(), kind: RuleKind::Definition(t) }
}
fn field(n: &str, t: TypeExpr) -> GroupEntry {
    GroupEntry { key: Some(GroupKey::Bare(n.to_string())), value_type: t, occurrence: None }
}
fn opt_field(n: &str, t: TypeExpr) -> GroupEntry {
    GroupEntry { key: Some(GroupKey::Bare(n.to_string())), value_type: t, occurrence: Some(Occurrence::Optional) }
}
fn group(entries: Vec<GroupEntry>) -> TypeExpr {
    TypeExpr::Group(Group { entries })
}
fn file(rules: Vec<Rule>) -> File {
    File::from_spec(CsilSpec { rules })
}

fn float_num(x: f64) -> FloatNum {
    let mut cbor = Vec::new();
    ciborium::ser::into_writer(&ciborium::Value::Float(x), &mut cbor).unwrap();
    FloatNum {
        bits: x.to_bits(),
        text: format!("{x}"),
        json: serde_json::Number::from_f64(x).map(|n| n.to_string()).unwrap_or_else(|| "null".to_string()),
        cbor,
    }
}

/// A serde_json value in the library's form.
fn from_serde(v: &serde_json::Value) -> Json {
    match v {
        serde_json::Value::Null => Json::Null,
        serde_json::Value::Bool(b) => Json::Bool(*b),
        serde_json::Value::Number(n) => {
            let kind = if let Some(u) = n.as_u64() {
                NumberKind::PosInt(u)
            } else if let Some(i) = n.as_i64() {
                NumberKind::NegInt(i)
            } else {
                NumberKind::Float(float_num(n.as_f64().unwrap_or_default()))
            };
            let int_as_float = if n.is_f64() { None } else { Some(float_num(n.as_f64().unwrap_or_default())) };
            Json::Number(JsonNumber { kind, int_as_float })
        }
        serde_json::Value::String(s) => Json::Str(s.clone()),
        serde_json::Value::Array(items) => Json::Array(items.iter().map(from_serde).collect()),
        serde_json::Value::Object(m) => Json::Object(m.iter().map(|(k, v)| (k.clone(), from_serde(v))).collect()),
    }
}

/// JSON text read by serde_json.
fn js(text: &str) -> serde_json::Value {
    serde_json::from_str(text).unwrap()
}

/// The library's JSON as serde_json's, through its JSON text.
fn to_serde(j: &Json) -> serde_json::Value {
    serde_json::from_str(&json_to_text(j)).unwrap()
}

/// Asks each question of the plan on `output`, answering from the lines of
/// `input`, and puts the request together.
fn prompt(t: &TypeExpr, f: &File, existing: Option<&serde_json::Value>, input: &str, output: &mut String) -> Result<serde_json::Value, String> {
    let existing = existing.map(from_serde);
    let asks = prompt_plan(t, f, existing.as_ref()).map_err(|e| e.message())?;
    let mut lines = input.lines();
    let mut answers = Vec::new();
    for ask in &asks {
        output.push_str(&ask.prompt());
        output.push_str(": ");
        let line = lines.next().unwrap_or("").trim().to_string();
        let as_json = serde_json::from_str::<serde_json::Value>(&line).ok().map(|v| from_serde(&v));
        let as_float = line.parse::<f64>().ok().map(|x| from_serde(&serde_json::Value::from(x)));
        answers.push(answer_value(ask, &line, as_json, as_float).map_err(|e| e.message())?);
    }
    Ok(to_serde(&fill_request(t, f, existing.as_ref(), &answers)))
}

#[test]
fn prompts_only_required_fields() {
    let f = file(vec![def(
        "Req",
        group(vec![field("name", b("text")), opt_field("nickname", b("text")), field("age", b("int"))]),
    )]);
    let mut output = String::new();
    let value = prompt(&r("Req"), &f, None, "Alice\n30\n", &mut output).unwrap();
    assert_eq!(value, js(r#"{"name": "Alice", "age": 30}"#));
    assert!(output.contains("name (text)"));
    assert!(output.contains("age (int)"));
    assert!(!output.contains("nickname"));
}

#[test]
fn falls_back_to_raw_json_for_map_typed_fields() {
    let f = file(vec![
        def("Extra", TypeExpr::MapType { key: Box::new(b("text")), value: Box::new(b("int")) }),
        def("Req", group(vec![field("name", b("text")), field("extra", r("Extra"))])),
    ]);
    let mut output = String::new();
    let value = prompt(&r("Req"), &f, None, "Alice\n{\"a\": 1}\n", &mut output).unwrap();
    assert_eq!(value, js(r#"{"name": "Alice", "extra": {"a": 1}}"#));
    assert!(output.contains("extra (JSON)"));
}

#[test]
fn prompts_nested_groups_with_dotted_path() {
    let f = file(vec![
        def("Inner", group(vec![field("id", b("int"))])),
        def("Req", group(vec![field("inner", r("Inner"))])),
    ]);
    let mut output = String::new();
    let value = prompt(&r("Req"), &f, None, "7\n", &mut output).unwrap();
    assert_eq!(value, js(r#"{"inner": {"id": 7}}"#));
    assert!(output.contains("inner.id (int)"));
}

#[test]
fn rejects_malformed_numeric_input() {
    let f = file(vec![def("Req", group(vec![field("age", b("int"))]))]);
    let mut output = String::new();
    let err = prompt(&r("Req"), &f, None, "not-a-number\n", &mut output).unwrap_err();
    assert!(err.contains("age"));
}

#[test]
fn prompts_only_for_fields_missing_from_existing_data() {
    let f = file(vec![def("Req", group(vec![field("name", b("text")), field("age", b("int"))]))]);
    let existing = js(r#"{"name": "Alice"}"#);
    let mut output = String::new();
    let value = prompt(&r("Req"), &f, Some(&existing), "30\n", &mut output).unwrap();
    assert_eq!(value, js(r#"{"name": "Alice", "age": 30}"#));
    assert!(!output.contains("name"));
    assert!(output.contains("age (int)"));
}

#[test]
fn prompts_only_for_missing_nested_field() {
    let f = file(vec![
        def("Inner", group(vec![field("id", b("int")), field("label", b("text"))])),
        def("Req", group(vec![field("inner", r("Inner"))])),
    ]);
    let existing = js(r#"{"inner": {"label": "x"}}"#);
    let mut output = String::new();
    let value = prompt(&r("Req"), &f, Some(&existing), "7\n", &mut output).unwrap();
    assert_eq!(value, js(r#"{"inner": {"id": 7, "label": "x"}}"#));
    assert!(output.contains("inner.id (int)"));
    assert!(!output.contains("label"));
}

fn with_default() -> TypeExpr {
    TypeExpr::Constrained {
        base_type: Box::new(b("text")),
        constraints: vec![ControlOp::Default(Literal::Text("anonymous".to_string()))],
    }
}

#[test]
fn fills_in_default_value_without_prompting() {
    let f = file(vec![def("Req", group(vec![field("name", with_default()), field("age", b("int"))]))]);
    let mut output = String::new();
    let value = prompt(&r("Req"), &f, None, "30\n", &mut output).unwrap();
    assert_eq!(value, js(r#"{"name": "anonymous", "age": 30}"#));
    assert!(!output.contains("name"));
    assert!(output.contains("age (int)"));
}

#[test]
fn existing_value_overrides_default() {
    let f = file(vec![def("Req", group(vec![field("name", with_default())]))]);
    let existing = js(r#"{"name": "Alice"}"#);
    let mut output = String::new();
    let value = prompt(&r("Req"), &f, Some(&existing), "", &mut output).unwrap();
    assert_eq!(value, js(r#"{"name": "Alice"}"#));
}

#[test]
fn fully_supplied_data_prompts_for_nothing() {
    let f = file(vec![def("Req", group(vec![field("name", b("text")), field("age", b("int"))]))]);
    let existing = js(r#"{"name": "Alice", "age": 30}"#);
    let mut output = String::new();
    let value = prompt(&r("Req"), &f, Some(&existing), "", &mut output).unwrap();
    assert_eq!(value, existing);
    assert!(output.is_empty());
}

// ----- Further cases -----

#[test]
fn one_answer_per_question() {
    let f = file(vec![
        def("Inner", group(vec![field("id", b("int")), field("tag", b("nil"))])),
        def("Req", group(vec![field("a", b("text")), field("inner", r("Inner")), field("b", b("bool"))])),
    ]);
    let asks = prompt_plan(&r("Req"), &f, None).unwrap();
    let paths: Vec<String> = asks.iter().map(|a| a.path.clone()).collect();
    assert_eq!(paths, vec!["a".to_string(), "inner.id".to_string(), "b".to_string()]);
    let answers = vec![Json::Str("x".to_string()), from_serde(&js(r#"3"#)), Json::Bool(true)];
    let v = to_serde(&fill_request(&r("Req"), &f, None, &answers));
    assert_eq!(v, js(r#"{"a": "x", "inner": {"id": 3, "tag": null}, "b": true}"#));
}

#[test]
fn answers_read_per_builtin() {
    let ask = |name: &str| csilctl::prompt::Ask { path: "p".to_string(), kind: AskKind::Builtin(name.to_string()) };
    let ok = |name: &str, line: &str| {
        let as_json = serde_json::from_str::<serde_json::Value>(line).ok().map(|v| from_serde(&v));
        let as_float = line.parse::<f64>().ok().map(|x| from_serde(&serde_json::Value::from(x)));
        answer_value(&ask(name), line, as_json, as_float).map(|j| to_serde(&j)).map_err(|e| e.message())
    };
    assert_eq!(ok("int", "-42").unwrap(), js(r#"-42"#));
    assert_eq!(ok("int", "+7").unwrap(), js(r#"7"#));
    assert!(ok("int", "9223372036854775808").is_err());
    assert_eq!(ok("uint", "18446744073709551615").unwrap(), js(r#"18446744073709551615"#));
    assert_eq!(ok("uint", "-0").unwrap_err(), "p: expected a non-negative integer, got \"-0\"");
    assert_eq!(ok("float", "1.5").unwrap(), js(r#"1.5"#));
    assert_eq!(ok("float", "x").unwrap_err(), "p: expected a number, got \"x\"");
    assert_eq!(ok("bool", "yes").unwrap(), js(r#"true"#));
    assert_eq!(ok("bool", "n").unwrap(), js(r#"false"#));
    assert_eq!(ok("bool", "maybe").unwrap_err(), "p: expected true/false, got \"maybe\"");
    assert_eq!(ok("text", "{}").unwrap(), js(r#""{}""#));
    assert_eq!(ok("any", "[1]").unwrap(), js(r#"[1]"#));
    assert_eq!(ok("any", "plain").unwrap(), js(r#""plain""#));
    assert_eq!(ok("widget", "1").unwrap_err(), "p: unknown builtin type \"widget\"");
}

#[test]
fn defaults_as_json() {
    let f = file(vec![def(
        "T",
        TypeExpr::Constrained {
            base_type: Box::new(b("bytes")),
            constraints: vec![ControlOp::Default(Literal::Bytes(vec![1, 0xab]))],
        },
    )]);
    let d = default_value(&r("T"), &f).unwrap();
    assert_eq!(to_serde(&d), js(r#""0x01ab""#));
    assert!(default_value(&b("int"), &f).is_none());
    let arr = literal_to_json(&Literal::Array(vec![Literal::Integer(-1), Literal::Null, Literal::Bool(true)]));
    assert_eq!(to_serde(&arr), js(r#"[-1, null, true]"#));
}

#[test]
fn integer_answer_carries_the_float_it_reads_as() {
    let ask = csilctl::prompt::Ask { path: "p".to_string(), kind: AskKind::Builtin("int".to_string()) };
    let line = "5";
    let as_float = line.parse::<f64>().ok().map(|x| from_serde(&serde_json::Value::from(x)));
    let v = answer_value(&ask, line, None, as_float).ok().unwrap();
    match v {
        Json::Number(JsonNumber { kind: NumberKind::PosInt(5), int_as_float: Some(ref x) }) => {
            assert_eq!(x.bits, 5.0f64.to_bits());
        }
        _ => panic!("expected the integer 5 with its float"),
    }
    // Such an answer encodes against `float` too.
    let f = file(vec![def("F", b("float"))]);
    let c = csilctl::payload::json_to_cbor(&v, &r("F"), &f).ok().unwrap();
    assert!(matches!(c, csilctl::value::Cbor::Float(ref x) if x.bits == 5.0f64.to_bits()));
}
