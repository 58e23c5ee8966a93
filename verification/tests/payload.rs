use csilctl::cbor::canon_map;
use csilctl::csil::{
    ControlOp, CsilSpec, File, FloatNum, Group, GroupEntry, GroupKey, Literal, Rule, RuleKind, SizeConstraint,
    TypeExpr,
};
use csilctl::jsontext::{json_to_pretty_text, json_to_text};
use csilctl::payload::{cbor_to_json, json_to_cbor, EncodeError};
use csilctl::value::{Cbor, Json, JsonNumber, NumberKind};

fn b(n: &str) -> TypeExpr {
    TypeExpr::Builtin(n.to_string())
}
fn r(n: &str) -> TypeExpr {
    TypeExpr::Reference(n.to_string())
}
fn def(n: &str, t: TypeExpr) -> Rule {
    Rule { name: n.to_string(), kind: RuleKind::Definition(t) }
}
fn constrained(base: TypeExpr, constraints: Vec<ControlOp>) -> TypeExpr {
    TypeExpr::Constrained { base_type: Box::new(base), constraints }
}
fn field(n: &str, t: TypeExpr) -> GroupEntry {
    GroupEntry { key: Some(GroupKey::Bare(n.to_string())), value_type: t, occurrence: None }
}
fn file(rules: Vec<Rule>) -> File {
    File::from_spec(CsilSpec { rules })
}
fn num(n: i64) -> Json {
    let kind = if n < 0 { NumberKind::NegInt(n) } else { NumberKind::PosInt(n as u64) };
    Json::Number(JsonNumber { kind, int_as_float: None })
}
fn text(s: &str) -> Json {
    Json::Str(s.to_string())
}
fn obj(members: Vec<(&str, Json)>) -> Json {
    Json::Object(members.into_iter().map(|(k, v)| (k.to_string(), v)).collect())
}

/// Encodes `json` against `TestCase` of a file of the given definitions.
fn encode(rules: Vec<Rule>, json: Json) -> Result<Cbor, EncodeError> {
    let f = file(rules);
    json_to_cbor(&json, &r("TestCase"), &f)
}

fn test_case(t: TypeExpr) -> Vec<Rule> {
    vec![def("TestCase", t)]
}

fn message(r: Result<Cbor, EncodeError>) -> String {
    match r {
        Ok(_) => panic!("expected an error"),
        Err(e) => e.message(),
    }
}

fn bytes_of(c: &Cbor) -> Vec<u8> {
    match c {
        Cbor::Bytes(b) => b.clone(),
        _ => panic!("expected bytes"),
    }
}

fn keys_of(c: &Cbor) -> Vec<String> {
    match c {
        Cbor::Entries(es) => es
            .iter()
            .map(|(k, _)| match k {
                Cbor::Text(s) => s.clone(),
                _ => panic!("expected a text key"),
            })
            .collect(),
        _ => panic!("expected a map"),
    }
}

#[test]
fn size_range_accepts_and_rejects() {
    let src = || test_case(constrained(b("text"), vec![ControlOp::Size(SizeConstraint::Range { min: 3, max: 5 })]));
    assert!(encode(src(), text("abc")).is_ok());
    assert!(encode(src(), text("abcde")).is_ok());
    let err = message(encode(src(), text("no")));
    assert!(err.contains(".size constraint violated"));
    let err = message(encode(src(), text("toolong")));
    assert!(err.contains(".size constraint violated"));
}

#[test]
fn size_applies_to_arrays_and_bytes() {
    let src = || {
        test_case(constrained(
            TypeExpr::Array { element_type: Box::new(b("text")), occurrence: None },
            vec![ControlOp::Size(SizeConstraint::Range { min: 1, max: 2 })],
        ))
    };
    assert!(encode(src(), Json::Array(vec![text("a")])).is_ok());
    assert!(encode(src(), Json::Array(vec![])).is_err());

    let src = || test_case(constrained(b("bytes"), vec![ControlOp::Size(SizeConstraint::Exact(3))]));
    assert!(encode(src(), text("abc")).is_ok());
    assert!(encode(src(), text("ab")).is_err());
}

#[test]
fn regex_accepts_and_rejects() {
    let src = || test_case(constrained(b("text"), vec![ControlOp::Regex("^[a-z]+$".to_string())]));
    assert!(encode(src(), text("widget")).is_ok());
    let err = message(encode(src(), text("Widget1")));
    assert!(err.contains(".regex constraint violated"));
}

#[test]
fn regex_only_applies_to_text() {
    let src = test_case(constrained(b("int"), vec![ControlOp::Regex("^[0-9]+$".to_string())]));
    let err = message(encode(src, num(5)));
    assert!(err.contains(".regex does not apply"));
}

#[test]
fn numeric_comparisons() {
    let src = || {
        test_case(constrained(
            b("int"),
            vec![ControlOp::GreaterEqual(Literal::Integer(0)), ControlOp::LessEqual(Literal::Integer(120))],
        ))
    };
    assert!(encode(src(), num(0)).is_ok());
    assert!(encode(src(), num(120)).is_ok());
    assert!(encode(src(), num(-1)).is_err());
    assert!(encode(src(), num(121)).is_err());

    let src = || test_case(constrained(b("int"), vec![ControlOp::GreaterThan(Literal::Integer(0))]));
    assert!(encode(src(), num(1)).is_ok());
    assert!(encode(src(), num(0)).is_err());

    let src = || test_case(constrained(b("int"), vec![ControlOp::LessThan(Literal::Integer(10))]));
    assert!(encode(src(), num(9)).is_ok());
    assert!(encode(src(), num(10)).is_err());
}

#[test]
fn eq_and_ne() {
    let src = || test_case(constrained(b("text"), vec![ControlOp::Equal(Literal::Text("widget".to_string()))]));
    assert!(encode(src(), text("widget")).is_ok());
    assert!(encode(src(), text("gadget")).is_err());

    let src = || test_case(constrained(b("text"), vec![ControlOp::NotEqual(Literal::Text("widget".to_string()))]));
    assert!(encode(src(), text("gadget")).is_ok());
    assert!(encode(src(), text("widget")).is_err());
}

#[test]
fn bits_accepts_and_rejects_hex_mask() {
    // mask 0x00FF = 0b0000_0000_1111_1111
    let src = || test_case(constrained(b("int"), vec![ControlOp::Bits("0x00FF".to_string())]));
    assert!(encode(src(), num(0x00AA)).is_ok());
    assert!(encode(src(), num(0x0100)).is_err());
    assert!(encode(src(), num(0x01AA)).is_err());
}

#[test]
fn bits_accepts_decimal_mask() {
    // mask 7 = 0b111
    let src = || test_case(constrained(b("int"), vec![ControlOp::Bits("7".to_string())]));
    assert!(encode(src(), num(5)).is_ok());
    assert!(encode(src(), num(8)).is_err());
}

#[test]
fn bits_rejects_non_integer_value() {
    let src = test_case(constrained(b("text"), vec![ControlOp::Bits("0x0F".to_string())]));
    assert!(encode(src, text("x")).is_err());
}

fn positive_and(c: fn(TypeExpr) -> ControlOp) -> Vec<Rule> {
    vec![
        def("Positive", constrained(b("int"), vec![ControlOp::GreaterEqual(Literal::Integer(0))])),
        def("TestCase", constrained(b("int"), vec![c(r("Positive"))])),
    ]
}

#[test]
fn and_requires_value_to_also_match_intersected_type() {
    assert!(encode(positive_and(ControlOp::And), num(5)).is_ok());
    assert!(encode(positive_and(ControlOp::And), num(-5)).is_err());
}

#[test]
fn and_rejects_shape_mismatch_against_intersected_type() {
    let src = test_case(constrained(b("int"), vec![ControlOp::And(b("text"))]));
    assert!(encode(src, num(5)).is_err());
}

#[test]
fn within_requires_value_to_match_referenced_type() {
    assert!(encode(positive_and(ControlOp::Within), num(5)).is_ok());
    assert!(encode(positive_and(ControlOp::Within), num(-5)).is_err());
}

#[test]
fn within_rejects_shape_mismatch_against_referenced_type() {
    let src = test_case(constrained(b("int"), vec![ControlOp::Within(b("text"))]));
    assert!(encode(src, num(5)).is_err());
}

#[test]
fn json_accepts_valid_json_text_and_rejects_malformed() {
    let src = || test_case(constrained(b("text"), vec![ControlOp::Json]));
    assert!(encode(src(), text(r#"{"a":1}"#)).is_ok());
    assert!(encode(src(), text("not json")).is_err());
}

#[test]
fn json_rejects_non_text_value() {
    let src = test_case(constrained(b("int"), vec![ControlOp::Json]));
    assert!(encode(src, num(5)).is_err());
}

#[test]
fn cbor_accepts_valid_cbor_bytes_and_rejects_malformed() {
    let src = || test_case(constrained(b("bytes"), vec![ControlOp::Cbor]));
    // 0x01 is the canonical CBOR encoding of the integer 1.
    assert!(encode(src(), text("0x01")).is_ok());
    // 0xa1 opens a 1-entry map but supplies no key/value bytes.
    assert!(encode(src(), text("0xa1")).is_err());
}

#[test]
fn cbor_rejects_non_bytes_value() {
    let src = test_case(constrained(b("text"), vec![ControlOp::Cbor]));
    assert!(encode(src, text("0x01")).is_err());
}

#[test]
fn cborseq_accepts_concatenated_cbor_items_and_rejects_malformed() {
    let src = || test_case(constrained(b("bytes"), vec![ControlOp::Cborseq]));
    assert!(encode(src(), text("0x0102")).is_ok());
    assert!(encode(src(), text("0x01")).is_ok());
    assert!(encode(src(), text("0x")).is_ok());
    assert!(encode(src(), text("0xa1")).is_err());
    assert!(encode(src(), text("0x01a1")).is_err());
}

#[test]
fn cborseq_rejects_non_bytes_value() {
    let src = test_case(constrained(b("int"), vec![ControlOp::Cborseq]));
    assert!(encode(src, num(5)).is_err());
}

#[test]
fn default_constraint_is_not_enforced_as_a_value_check() {
    let src = test_case(constrained(b("text"), vec![ControlOp::Default(Literal::Text("anonymous".to_string()))]));
    assert!(encode(src, text("someone-else")).is_ok());
}

// ----- Further cases -----

#[test]
fn group_fields_come_out_in_canonical_key_order() {
    // "b" encodes as 0x61 0x62 and "aa" as 0x62 0x61 0x61: the shorter key first.
    let src = test_case(TypeExpr::Group(Group { entries: vec![field("aa", b("int")), field("b", b("int"))] }));
    let v = encode(src, obj(vec![("aa", num(1)), ("b", num(2))])).unwrap();
    assert_eq!(keys_of(&v), vec!["b".to_string(), "aa".to_string()]);
}

#[test]
fn any_object_comes_out_in_canonical_key_order() {
    let v = encode(test_case(b("any")), obj(vec![("b", num(1)), ("a", num(2))])).unwrap();
    assert_eq!(keys_of(&v), vec!["a".to_string(), "b".to_string()]);
}

#[test]
fn canon_map_is_stable_and_sorted() {
    let v = canon_map(vec![
        (Cbor::Text("zz".to_string()), Cbor::Integer(1)),
        (Cbor::Integer(3), Cbor::Integer(2)),
        (Cbor::Text("a".to_string()), Cbor::Integer(3)),
        (Cbor::Integer(3), Cbor::Integer(4)),
    ]);
    match v {
        Cbor::Entries(es) => {
            // 0x03 < 0x61 'a' < 0x62 'z' 'z'; the two keys 3 keep their order.
            assert!(matches!(es[0], (Cbor::Integer(3), Cbor::Integer(2))));
            assert!(matches!(es[1], (Cbor::Integer(3), Cbor::Integer(4))));
            assert!(matches!(&es[2], (Cbor::Text(s), Cbor::Integer(3)) if s == "a"));
            assert!(matches!(&es[3], (Cbor::Text(s), Cbor::Integer(1)) if s == "zz"));
        }
        _ => panic!("expected a map"),
    }
}

#[test]
fn missing_required_field_is_named() {
    let src = test_case(TypeExpr::Group(Group { entries: vec![field("name", b("text"))] }));
    let err = message(encode(src, obj(vec![])));
    assert_eq!(err, "missing required field \"name\"");
}

#[test]
fn wrong_shape_names_the_json_given() {
    let err = message(encode(test_case(b("int")), text("x")));
    assert_eq!(err, "expected an integer, got \"x\"");
    let err = message(encode(test_case(b("bool")), Json::Array(vec![num(1), Json::Null])));
    assert_eq!(err, "expected a boolean, got [1,null]");
}

#[test]
fn bytes_from_hex_text_and_arrays() {
    let v = encode(test_case(b("bytes")), text("0x01ff")).unwrap();
    assert_eq!(bytes_of(&v), vec![1, 255]);
    let v = encode(test_case(b("bytes")), text("hi")).unwrap();
    assert_eq!(bytes_of(&v), b"hi".to_vec());
    let v = encode(test_case(b("bytes")), Json::Array(vec![num(7), num(255)])).unwrap();
    assert_eq!(bytes_of(&v), vec![7, 255]);
    let err = message(encode(test_case(b("bytes")), Json::Array(vec![num(256)])));
    assert_eq!(err, "expected a byte (0-255), got 256");
    let err = message(encode(test_case(b("bytes")), text("0x123")));
    assert_eq!(err, "hex string must have an even number of digits");
    let err = message(encode(test_case(b("bytes")), text("0xzz")));
    assert_eq!(err, "invalid digit found in string");
    // u8::from_str_radix reads "+f" as 15.
    let v = encode(test_case(b("bytes")), text("0x+f")).unwrap();
    assert_eq!(bytes_of(&v), vec![15]);
}

#[test]
fn bytes_shown_as_json_read_back() {
    let shown = cbor_to_json(&Cbor::Bytes(vec![0, 1, 0xab, 0xff]));
    assert_eq!(json_to_text(&shown), "\"0x0001abff\"");
    let v = encode(test_case(b("bytes")), shown).unwrap();
    assert_eq!(bytes_of(&v), vec![0, 1, 0xab, 0xff]);
}

#[test]
fn choice_follows_type_hint_then_first_accepting_arm() {
    let rules = || {
        vec![
            def("A", TypeExpr::Group(Group { entries: vec![field("x", b("int"))] })),
            def("B", TypeExpr::Group(Group { entries: vec![field("y", b("int"))] })),
            def("TestCase", TypeExpr::Choice(vec![r("A"), r("B")])),
        ]
    };
    let v = encode(rules(), obj(vec![("y", num(1))])).unwrap();
    assert_eq!(keys_of(&v), vec!["y".to_string()]);
    let err = message(encode(rules(), obj(vec![("_type", text("B")), ("x", num(1))])));
    assert_eq!(err, "missing required field \"y\"");
    let err = message(encode(rules(), num(3)));
    assert_eq!(err, "value did not match any arm of the choice type");
}

#[test]
fn unknown_reference_and_builtin() {
    let err = message(encode(vec![], num(1)));
    assert_eq!(err, "unknown type \"TestCase\"");
    let err = message(encode(test_case(b("widget")), num(1)));
    assert_eq!(err, "unknown builtin type \"widget\"");
}

#[test]
fn size_and_bits_messages() {
    let src = test_case(constrained(b("text"), vec![ControlOp::Size(SizeConstraint::Range { min: 3, max: 5 })]));
    assert_eq!(
        message(encode(src, text("no"))),
        ".size constraint violated: length 2 does not satisfy Range { min: 3, max: 5 }"
    );
    let src = test_case(constrained(b("int"), vec![ControlOp::Bits("7".to_string())]));
    assert_eq!(message(encode(src, num(8))), ".bits constraint violated: 0x8 sets bits outside mask 7");
    let src = test_case(constrained(b("int"), vec![ControlOp::Bits("seven".to_string())]));
    assert_eq!(message(encode(src, num(8))), "invalid .bits mask \"seven\": invalid digit found in string");
    let src = test_case(constrained(b("text"), vec![ControlOp::GreaterEqual(Literal::Integer(0))]));
    assert_eq!(message(encode(src, text("a"))), ".ge does not apply to a text");
}

#[test]
fn literal_type_ignores_the_json_given() {
    let v = encode(test_case(TypeExpr::Literal(Literal::Integer(7))), text("anything")).unwrap();
    assert!(matches!(v, Cbor::Integer(7)));
}

#[test]
fn float_builtin_uses_the_float_carried() {
    let f = FloatNum { bits: 0x3ff8_0000_0000_0000, text: "1.5".to_string(), json: "1.5".to_string(), cbor: vec![0xf9, 0x3e, 0x00] };
    let j = Json::Number(JsonNumber { kind: NumberKind::Float(f), int_as_float: None });
    let v = encode(test_case(b("float")), j).unwrap();
    assert!(matches!(v, Cbor::Float(ref x) if x.bits == 0x3ff8_0000_0000_0000));
    // An integer is compared with a float bound as a double.
    let bound = FloatNum { bits: 0x3ff8_0000_0000_0000, text: "1.5".to_string(), json: "1.5".to_string(), cbor: vec![0xf9, 0x3e, 0x00] };
    let src = test_case(constrained(b("int"), vec![ControlOp::LessThan(Literal::Float(bound))]));
    assert!(encode(src, num(1)).is_ok());
    let bound = FloatNum { bits: 0x3ff8_0000_0000_0000, text: "1.5".to_string(), json: "1.5".to_string(), cbor: vec![0xf9, 0x3e, 0x00] };
    let src = test_case(constrained(b("int"), vec![ControlOp::LessThan(Literal::Float(bound))]));
    assert!(encode(src, num(2)).is_err());
}

#[test]
fn response_values_as_json() {
    assert_eq!(json_to_text(&cbor_to_json(&Cbor::Integer(-3))), "-3");
    assert_eq!(json_to_text(&cbor_to_json(&Cbor::Integer(u64::MAX as i128))), "18446744073709551615");
    assert_eq!(json_to_text(&cbor_to_json(&Cbor::Integer(u64::MAX as i128 + 1))), "null");
    assert_eq!(json_to_text(&cbor_to_json(&Cbor::Tag(1, Box::new(Cbor::Text("t".to_string()))))), "\"t\"");
    let map = Cbor::Entries(vec![
        (Cbor::Integer(1), Cbor::Text("one".to_string())),
        (Cbor::Text("k".to_string()), Cbor::Bool(true)),
        (Cbor::Bytes(vec![1]), Cbor::Null),
        (Cbor::Text("k".to_string()), Cbor::Bool(false)),
    ]);
    // Members come out in key order ('"' before '1' before 'k'), the last
    // value of a repeated key kept.
    assert_eq!(json_to_text(&cbor_to_json(&map)), "{\"\\\"0x01\\\"\":null,\"1\":\"one\",\"k\":false}");
    let nan = FloatNum { bits: 0x7ff8_0000_0000_0000, text: "NaN".to_string(), json: "null".to_string(), cbor: vec![0xf9, 0x7e, 0x00] };
    assert_eq!(json_to_text(&cbor_to_json(&Cbor::Float(nan))), "null");
}

#[test]
fn pretty_json_as_serde_json_writes_it() {
    let v = obj(vec![("a", Json::Array(vec![num(1), num(2)])), ("b", obj(vec![])), ("c", Json::Array(vec![]))]);
    assert_eq!(
        json_to_pretty_text(&v),
        "{\n  \"a\": [\n    1,\n    2\n  ],\n  \"b\": {},\n  \"c\": []\n}"
    );
    let value: serde_json::Value = serde_json::from_str(r#"{"a": [1, 2], "b": {}, "c": []}"#).unwrap();
    let expected = serde_json::to_string_pretty(&value).unwrap();
    assert_eq!(json_to_pretty_text(&v), expected);
}

#[test]
fn json_text_escapes_as_serde_json_does() {
    let s = "q\"b\\n\nt\tc\u{1}e\u{7f}é";
    assert_eq!(json_to_text(&text(s)), serde_json::to_string(s).unwrap());
}

#[test]
fn any_round_trip_gives_keys_in_key_order() {
    // The map is in canonical order ("b" before "aa"); the object comes
    // back in key order ("aa" before "b"), every key with its value.
    let j = obj(vec![("aa", num(1)), ("b", num(-2))]);
    let v = encode(test_case(b("any")), obj(vec![("aa", num(1)), ("b", num(-2))])).unwrap();
    assert_eq!(keys_of(&v), vec!["b".to_string(), "aa".to_string()]);
    let back = cbor_to_json(&v);
    assert_eq!(json_to_text(&back), json_to_text(&j));
    assert_eq!(json_to_text(&back), "{\"aa\":1,\"b\":-2}");
}

#[test]
fn long_chain_of_constrained_aliases_encodes() {
    // T0 = int .ge 0, and each Ti = T(i-1) .le 100: far more aliases than
    // any small bound on the nesting would allow.
    let n = 1500;
    let mut rules = vec![def("T0", constrained(b("int"), vec![ControlOp::GreaterEqual(Literal::Integer(0))]))];
    for i in 1..n {
        rules.push(def(
            &format!("T{}", i),
            constrained(r(&format!("T{}", i - 1)), vec![ControlOp::LessEqual(Literal::Integer(100))]),
        ));
    }
    rules.push(def("TestCase", r(&format!("T{}", n - 1))));
    let v = encode(rules, num(7)).unwrap();
    assert!(matches!(v, Cbor::Integer(7)));
}

#[test]
fn within_encodes_the_json_afresh() {
    let rules = vec![
        def("Small", constrained(b("int"), vec![ControlOp::LessEqual(Literal::Integer(10))])),
        def("TestCase", constrained(b("int"), vec![ControlOp::Within(r("Small"))])),
    ];
    assert!(encode(rules, num(5)).is_ok());
    let rules = vec![
        def("Small", constrained(b("int"), vec![ControlOp::LessEqual(Literal::Integer(10))])),
        def("TestCase", constrained(b("int"), vec![ControlOp::Within(r("Small"))])),
    ];
    assert!(encode(rules, num(50)).is_err());
}

fn bits_message(mask: &str) -> String {
    let src = test_case(constrained(b("int"), vec![ControlOp::Bits(mask.to_string())]));
    message(encode(src, num(1)))
}

#[test]
fn bad_bits_masks_say_why_as_integer_parsing_does() {
    let why = |mask: &str| {
        let t = mask.trim();
        match t.strip_prefix("0x").or_else(|| t.strip_prefix("0X")) {
            Some(h) => i128::from_str_radix(h, 16).unwrap_err().to_string(),
            None => t.parse::<i128>().unwrap_err().to_string(),
        }
    };
    for mask in [
        "",
        "0x",
        "-",
        "+",
        " 12z ",
        "0xfg",
        "170141183460469231731687303715884105728",
        "-170141183460469231731687303715884105729",
        "999999999999999999999999999999999999999999x",
        "0x1ffffffffffffffffffffffffffffffff",
    ] {
        assert_eq!(bits_message(mask), format!("invalid .bits mask {:?}: {}", mask, why(mask)), "mask {:?}", mask);
    }
    assert_eq!(
        bits_message("170141183460469231731687303715884105728"),
        "invalid .bits mask \"170141183460469231731687303715884105728\": number too large to fit in target type"
    );
}

#[test]
fn outside_error_texts_are_kept() {
    let src = test_case(constrained(b("text"), vec![ControlOp::Regex("(".to_string())]));
    let e = regex::Regex::new("(").unwrap_err();
    assert_eq!(message(encode(src, text("x"))), format!("invalid .regex pattern {:?}: {}", "(", e));

    let src = test_case(constrained(b("text"), vec![ControlOp::Json]));
    let e = serde_json::from_str::<serde_json::Value>("{x").unwrap_err();
    assert_eq!(message(encode(src, text("{x"))), format!(".json constraint violated: {:?} is not valid JSON: {}", "{x", e));

    let src = test_case(constrained(b("bytes"), vec![ControlOp::Cbor]));
    let bytes: &[u8] = &[0xa1];
    let e = ciborium::de::from_reader::<ciborium::Value, _>(bytes).unwrap_err();
    assert_eq!(message(encode(src, text("0xa1"))), format!(".cbor constraint violated: bytes are not valid CBOR: {}", e));

    let src = test_case(constrained(b("bytes"), vec![ControlOp::Cborseq]));
    let bytes: &[u8] = &[0x01, 0xa1];
    let mut cursor = std::io::Cursor::new(bytes);
    let _first = ciborium::de::from_reader::<ciborium::Value, _>(&mut cursor).unwrap();
    let e = ciborium::de::from_reader::<ciborium::Value, _>(&mut cursor).unwrap_err();
    assert_eq!(
        message(encode(src, text("0x01a1"))),
        format!(".cborseq constraint violated: bytes are not a valid CBOR sequence: {}", e)
    );
}
