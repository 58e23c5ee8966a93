use csilctl::csil::{Direction, ServiceOp, TypeExpr};
use csilctl::send::{request_source, response_output, sending_line, RequestSource};
use csilctl::value::{Json, JsonNumber, NumberKind};

fn op(input: TypeExpr) -> ServiceOp {
    ServiceOp {
        name: "Say".to_string(),
        input_type: input,
        output_type: TypeExpr::Builtin("text".to_string()),
        direction: Direction::Unidirectional,
    }
}

#[test]
fn request_without_declared_input_is_sent_as_given_or_empty() {
    let push = op(TypeExpr::Builtin("null".to_string()));
    assert!(matches!(request_source(&push, Some(Json::Bool(true))), RequestSource::AsGiven(Json::Bool(true))));
    assert!(matches!(request_source(&push, None), RequestSource::EmptyObject));
}

#[test]
fn request_with_declared_input_is_asked_for() {
    let say = op(TypeExpr::Reference("EchoRequest".to_string()));
    assert!(matches!(request_source(&say, None), RequestSource::Ask(None)));
    assert!(matches!(request_source(&say, Some(Json::Null)), RequestSource::Ask(Some(Json::Null))));
}

#[test]
fn sending_line_names_message_and_host() {
    assert_eq!(sending_line(false, "Say", "localhost:1"), "Sending Say to localhost:1");
    assert_eq!(sending_line(true, "Say", "h"), "Sending \x1b[36mSay\x1b[0m to \x1b[32mh\x1b[0m");
}

#[test]
fn response_shows_variant_then_pretty_json() {
    let body = Json::Object(vec![(
        "message".to_string(),
        Json::Number(JsonNumber { kind: NumberKind::PosInt(1), int_as_float: None }),
    )]);
    assert_eq!(response_output(false, None, &body), "{\n  \"message\": 1\n}\n");
    assert_eq!(
        response_output(true, Some("EchoResponse"), &Json::Null),
        "response type: \x1b[36mEchoResponse\x1b[0m\n\x1b[32mnull\x1b[0m\n"
    );
}
