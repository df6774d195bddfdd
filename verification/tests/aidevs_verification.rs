use exercises::aidevs_verification::{verify_result, AiDevsVerification, VerifyError};
use exercises::json::JsonValue;

fn s(t: &str) -> JsonValue {
    JsonValue::Str(t.to_string())
}

#[test]
fn key_is_trimmed_and_required() {
    assert!(AiDevsVerification::from_key("  k ").is_ok());
    assert_eq!(AiDevsVerification::from_key(" \n").err(), Some(VerifyError::EmptyKey));
    assert_eq!(VerifyError::EmptyKey.message(), "DEVS_KEY cannot be empty");
}

#[test]
fn payload_carries_key_task_and_answer() {
    let v = AiDevsVerification::from_key("  k ").unwrap();
    let p = v.verify_payload("people", JsonValue::Array(vec![s("a")])).unwrap();
    assert_eq!(
        p,
        JsonValue::Object(vec![
            ("apikey".to_string(), s("k")),
            ("task".to_string(), s("people")),
            ("answer".to_string(), JsonValue::Array(vec![s("a")])),
        ])
    );
    assert_eq!(v.verify_payload("  ", JsonValue::Null), Err(VerifyError::EmptyTask));
    assert_eq!(VerifyError::EmptyTask.message(), "Task cannot be empty");
}

#[test]
fn unparsed_body_becomes_string() {
    assert_eq!(verify_result(Some(s("x")), "ignored".to_string()), s("x"));
    assert_eq!(verify_result(None, "plain text".to_string()), s("plain text"));
}
