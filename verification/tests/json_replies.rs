use exercises::aidevs_verification::{verify_outcome, verify_reply};
use exercises::declaration::{error_verdict, read_declaration, submission_step, DeclarationError, SubmitStep, Verdict, SUBMISSIONS};
use exercises::findhim::{read_access_level_reply, read_location_reply, AccessLevelResponse, ReplyError};
use exercises::job_tagging::{read_tagging_records, TaggingRecord};
use exercises::json::JsonValue;
use exercises::openai_wrapper::{read_api_reply, ApiFailure};
use exercises::railway::{next_hunt_step, HuntSignal, HUNT_ATTEMPTS};
use exercises::package_proxy::{
    next_chat_round, package_reply, read_chat_body, tool_arguments, weather_report, ChatError, ChatStep, ToolCall,
    MAX_ITERATIONS,
};

fn s(t: &str) -> JsonValue {
    JsonValue::Str(t.to_string())
}

fn n(t: &str) -> JsonValue {
    JsonValue::Number(t.to_string())
}

fn obj(entries: Vec<(&str, JsonValue)>) -> JsonValue {
    JsonValue::Object(entries.into_iter().map(|(k, v)| (k.to_string(), v)).collect())
}

#[test]
fn verify_reply_parses_or_keeps_text() {
    assert_eq!(
        verify_reply("{\"code\":0,\"message\":\"OK\",\"list\":[1,-2,2.5,true,null]}".to_string()),
        obj(vec![
            ("code", n("0")),
            ("list", JsonValue::Array(vec![n("1"), n("-2"), n("2.5"), JsonValue::Bool(true), JsonValue::Null])),
            ("message", s("OK")),
        ])
    );
    assert_eq!(verify_reply("not json".to_string()), s("not json"));
    assert_eq!(verify_reply("\"quoted\"".to_string()), s("quoted"));
}

#[test]
fn verify_outcome_by_status() {
    assert_eq!(verify_outcome(false, "{\"code\":-1}".to_string()), Err("{\"code\":-1}".to_string()));
    assert_eq!(verify_outcome(true, "[1]".to_string()), Ok(JsonValue::Array(vec![n("1")])));
}

#[test]
fn api_replies() {
    assert_eq!(read_api_reply(true, "<html>"), Err(ApiFailure::NotJson("<html>".to_string())));
    assert_eq!(read_api_reply(false, "<html>"), Err(ApiFailure::NotJson("<html>".to_string())));
    assert_eq!(
        read_api_reply(false, "{\"error\":{\"message\":\"bad key\"}}"),
        Err(ApiFailure::Status("bad key".to_string()))
    );
    assert_eq!(
        read_api_reply(true, "{\"error\":{\"message\":\"quota\"}}"),
        Err(ApiFailure::Message("quota".to_string()))
    );
    assert_eq!(read_api_reply(true, "{\"output_text\":\"hi\"}"), Ok(obj(vec![("output_text", s("hi"))])));
}

#[test]
fn chat_bodies() {
    assert_eq!(read_chat_body(true, "oops"), Err(ChatError::NotJson));
    assert_eq!(ChatError::NotJson.message(), "Failed to parse OpenAI response");
    let body = "{\"choices\":[{\"message\":{\"tool_calls\":[{\"id\":\"c1\",\"function\":{\"name\":\"check_package\",\"arguments\":\"{}\"}}]}}]}";
    let (_, step) = read_chat_body(true, body).unwrap();
    assert_eq!(
        step,
        ChatStep::ToolCalls(vec![ToolCall { id: "c1".to_string(), name: "check_package".to_string(), arguments: "{}".to_string() }])
    );
}

#[test]
fn tool_arguments_default_to_empty_object() {
    assert_eq!(tool_arguments("{\"packageid\":\"P1\"}"), obj(vec![("packageid", s("P1"))]));
    assert_eq!(tool_arguments("{not json"), obj(vec![]));
    assert_eq!(tool_arguments("5"), n("5"));
}

#[test]
fn weather_and_package_bodies() {
    let report = weather_report("Kraków", "{\"current_condition\":[{\"temp_C\":\"3\"}]}").unwrap();
    assert_eq!(report.get("temperatura_C"), Some(&s("3")));
    assert_eq!(weather_report("Kraków", "<html>"), None);
    assert_eq!(package_reply("{\"ok\":true}"), Some(obj(vec![("ok", JsonValue::Bool(true))])));
    assert_eq!(package_reply(""), None);
}

#[test]
fn findhim_bodies() {
    assert_eq!(read_access_level_reply("nope"), Err(ReplyError::NotJson));
    assert_eq!(
        read_access_level_reply("{\"code\":0,\"accessLevel\":7}"),
        Ok(AccessLevelResponse { code: Some(0), message: None, access_level: 7 })
    );
    assert_eq!(read_access_level_reply("[]"), Err(ReplyError::NotAnObject));
    assert_eq!(read_location_reply("nope").err(), Some(ReplyError::NotJson));
    let reply = read_location_reply("[{\"lat\":50.5,\"lon\":19}]").unwrap();
    assert_eq!(reply.entries, vec![obj(vec![("lat", n("50.5")), ("lon", n("19"))])]);
    assert_eq!(read_location_reply("3").err(), Some(ReplyError::NotAnObject));
}

#[test]
fn declaration_answers() {
    assert_eq!(read_declaration("{\"declaration_text\":\"  SPK \\n\"}"), Ok("SPK".to_string()));
    assert_eq!(read_declaration("{\"other\":1}"), Err(DeclarationError::MissingText));
    assert_eq!(read_declaration("SPK"), Err(DeclarationError::NotJson));
}

#[test]
fn tagging_answer_text() {
    assert_eq!(
        read_tagging_records("{\"records\":[{\"index\":0,\"tags\":[\"IT\"]}]}"),
        Some(vec![TaggingRecord { index: 0, tags: vec!["IT".to_string()] }])
    );
    assert_eq!(read_tagging_records("[[[1,[\"transport\"]]]]"), Some(vec![TaggingRecord { index: 1, tags: vec!["transport".to_string()] }]));
    assert_eq!(read_tagging_records("{\"records\":[{\"index\":-1,\"tags\":[]}]}"), None);
    assert_eq!(read_tagging_records("records"), None);
}

#[test]
fn loop_steps() {
    let mut rounds = 1;
    let mut round = 0;
    while let Some(next) = next_chat_round(round) {
        round = next;
        rounds += 1;
    }
    assert_eq!(rounds, MAX_ITERATIONS);

    assert_eq!(error_verdict("HTTP 400 {FLG:X}".to_string()), Verdict::Accepted);
    assert_eq!(error_verdict("HTTP 400".to_string()), Verdict::Refused("HTTP 400".to_string()));
    assert_eq!(submission_step(3, Verdict::Accepted), SubmitStep::Accepted);
    assert_eq!(
        submission_step(1, Verdict::Refused("zła trasa".to_string())),
        SubmitStep::Fix { message: "zła trasa".to_string(), next: 2 }
    );
    assert_eq!(submission_step(SUBMISSIONS, Verdict::Refused("x".to_string())), SubmitStep::Exhausted);

    assert_eq!(next_hunt_step(1, &HuntSignal::Quiet), Some(2));
    assert_eq!(next_hunt_step(5, &HuntSignal::Annoyed), Some(6));
    assert_eq!(next_hunt_step(5, &HuntSignal::Secret), None);
    assert_eq!(next_hunt_step(HUNT_ATTEMPTS, &HuntSignal::Quiet), None);
}
