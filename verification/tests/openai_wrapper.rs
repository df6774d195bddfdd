use exercises::json::{array2, object1, object2, object4, text_array, JsonValue};
use exercises::llm_payload_service::{JsonSchemaFormat, LlmPayloadService};
use exercises::openai_wrapper::{
    check_api_response, extract_response_text, normalize_api_key, resolve_model_for_provider,
    ApiFailure, ConfigError,
};

fn s(t: &str) -> JsonValue {
    JsonValue::Str(t.to_string())
}

fn obj(entries: Vec<(&str, JsonValue)>) -> JsonValue {
    JsonValue::Object(entries.into_iter().map(|(k, v)| (k.to_string(), v)).collect())
}

fn message_item(texts: &[&str]) -> JsonValue {
    obj(vec![
        ("type", s("message")),
        (
            "content",
            JsonValue::Array(texts.iter().map(|t| obj(vec![("type", s("output_text")), ("text", s(t))])).collect()),
        ),
    ])
}

#[test]
fn resolve_model_keeps_name_untrimmed() {
    assert_eq!(resolve_model_for_provider("gpt-5.4"), Ok("gpt-5.4".to_string()));
    assert_eq!(resolve_model_for_provider(" gpt "), Ok(" gpt ".to_string()));
    assert_eq!(resolve_model_for_provider(""), Err(ConfigError::EmptyModel));
    assert_eq!(resolve_model_for_provider(" \t\n"), Err(ConfigError::EmptyModel));
    assert_eq!(ConfigError::EmptyModel.message(), "Model must be a non-empty string");
}

#[test]
fn normalize_api_key_trims() {
    assert_eq!(normalize_api_key("  sk-abc \n"), Ok("sk-abc".to_string()));
    assert_eq!(normalize_api_key("\u{3000}key\u{a0}"), Ok("key".to_string()));
    assert_eq!(normalize_api_key("   "), Err(ConfigError::EmptyKey));
    assert_eq!(ConfigError::EmptyKey.message(), "AI API key cannot be empty");
}

#[test]
fn extract_prefers_output_text() {
    let response = obj(vec![("output_text", s("  hello  ")), ("output", JsonValue::Array(vec![message_item(&["other"])]))]);
    assert_eq!(extract_response_text(&response), Some("hello".to_string()));
}

#[test]
fn extract_falls_back_to_first_message_text() {
    let response = obj(vec![
        ("output_text", s("   ")),
        (
            "output",
            JsonValue::Array(vec![
                obj(vec![("type", s("reasoning")), ("content", JsonValue::Null)]),
                message_item(&["  ", " {\"records\":[]} "]),
                message_item(&["later"]),
            ]),
        ),
    ]);
    assert_eq!(extract_response_text(&response), Some("{\"records\":[]}".to_string()));
}

#[test]
fn extract_gives_up_on_message_without_content_array() {
    let response = obj(vec![(
        "output",
        JsonValue::Array(vec![obj(vec![("type", s("message")), ("content", s("x"))]), message_item(&["never"])]),
    )]);
    assert_eq!(extract_response_text(&response), None);
}

#[test]
fn extract_none_without_output() {
    assert_eq!(extract_response_text(&obj(vec![])), None);
    assert_eq!(extract_response_text(&obj(vec![("output", s("x"))])), None);
    assert_eq!(extract_response_text(&obj(vec![("output", JsonValue::Array(vec![message_item(&[" "])]))])), None);
    assert_eq!(extract_response_text(&s("text")), None);
}

#[test]
fn check_api_response_cases() {
    let err_body = obj(vec![("error", obj(vec![("message", s("bad key"))]))]);
    assert_eq!(check_api_response(false, err_body.deep_copy()), Err(ApiFailure::Status("bad key".to_string())));
    assert_eq!(check_api_response(true, err_body), Err(ApiFailure::Message("bad key".to_string())));
    assert_eq!(
        check_api_response(false, obj(vec![("ok", JsonValue::Bool(true))])),
        Err(ApiFailure::Status("Unknown API error".to_string()))
    );
    let good = obj(vec![("output_text", s("x")), ("error", JsonValue::Null)]);
    assert_eq!(check_api_response(true, good.deep_copy()), Ok(good));
}

#[test]
fn build_responses_payload_shape() {
    let schema = object1("type", s("object"));
    let payload = LlmPayloadService::build_responses_payload(
        "gpt-5.4",
        "sys",
        "usr",
        JsonSchemaFormat { name: "job_tagging".to_string(), schema: schema.deep_copy(), strict: true },
    );
    let input = |role: &str, text: &str| {
        object2("role", s(role), "content", JsonValue::Array(vec![object2("type", s("input_text"), "text", s(text))]))
    };
    let expected = obj(vec![
        ("model", s("gpt-5.4")),
        ("input", array2(input("system", "sys"), input("user", "usr"))),
        (
            "text",
            object1(
                "format",
                object4("type", s("json_schema"), "name", s("job_tagging"), "strict", JsonValue::Bool(true), "schema", schema),
            ),
        ),
    ]);
    assert_eq!(payload, expected);
}

#[test]
fn json_lookups() {
    let v = obj(vec![("a", s("x")), ("b", text_array(&["p", "q"]))]);
    assert_eq!(v.get("a"), Some(&s("x")));
    assert_eq!(v.get("c"), None);
    assert_eq!(s("x").get("a"), None);
    assert_eq!(v.get("b").unwrap().item(1), Some(&s("q")));
    assert_eq!(v.get("b").unwrap().item(2), None);
    assert_eq!(v.get("a").unwrap().as_str(), Some(&"x".to_string()));
    assert_eq!(v.get("b").unwrap().as_array().map(|a| a.len()), Some(2));
    assert_eq!(v.deep_copy(), v);
}
