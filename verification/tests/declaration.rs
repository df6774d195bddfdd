use exercises::declaration::{
    declaration_payload, declaration_text, declaration_verdict, fix_declaration_payload, has_success_code, image_analysis_payload,
    image_analysis_payload_b64, image_text, join_documents, response_message, DECLARATION_SYSTEM_PROMPT,
    FIX_SYSTEM_PROMPT, MODEL, Verdict,
};
use exercises::json::JsonValue;

fn s(t: &str) -> JsonValue {
    JsonValue::Str(t.to_string())
}

fn obj(entries: Vec<(&str, JsonValue)>) -> JsonValue {
    JsonValue::Object(entries.into_iter().map(|(k, v)| (k.to_string(), v)).collect())
}

fn user_text(payload: &JsonValue, turn: usize, part: usize) -> String {
    payload.get("input").unwrap().item(turn).unwrap().get("content").unwrap().item(part).unwrap().get("text").unwrap().as_str().unwrap().clone()
}

#[test]
fn join_documents_format() {
    let docs = vec![("a.md".to_string(), "A".to_string()), ("b.png".to_string(), "B\nC".to_string())];
    assert_eq!(join_documents(&docs), "### FILE: a.md\nA\n\n---\n\n### FILE: b.png\nB\nC");
    assert_eq!(join_documents(&Vec::new()), "");
}

#[test]
fn declaration_payload_prompts() {
    let p = declaration_payload("DOCS");
    assert_eq!(p.get("model"), Some(&s(MODEL)));
    assert_eq!(user_text(&p, 0, 0), DECLARATION_SYSTEM_PROMPT);
    assert_eq!(user_text(&p, 1, 0), "Oto cała pobrana dokumentacja SPK:\n\nDOCS\n\nWypełnij deklarację transportową.");
    let format = p.get("text").unwrap().get("format").unwrap();
    assert_eq!(format.get("name"), Some(&s("declaration")));
    assert_eq!(format.get("strict"), Some(&JsonValue::Bool(true)));
    assert!(DECLARATION_SYSTEM_PROMPT.contains("Użyj \\n dla nowych linii"));
}

#[test]
fn fix_payload_prompts() {
    let p = fix_declaration_payload("D", "CUR", "ERR");
    assert_eq!(user_text(&p, 0, 0), FIX_SYSTEM_PROMPT);
    assert_eq!(
        user_text(&p, 1, 0),
        "Pełna dokumentacja SPK:\n\nD\n\n---\nOdrzucona deklaracja:\nCUR\n\n---\nKomunikat błędu:\nERR\n\nPopraw deklarację."
    );
    assert_eq!(p.get("text").unwrap().get("format").unwrap().get("name"), Some(&s("declaration_fix")));
}

#[test]
fn declaration_text_is_trimmed() {
    assert_eq!(declaration_text(&obj(vec![("declaration_text", s("  SPK\nX \n"))])), Some("SPK\nX".to_string()));
    assert_eq!(declaration_text(&obj(vec![("declaration_text", JsonValue::Null)])), None);
    assert_eq!(declaration_text(&obj(vec![])), None);
}

#[test]
fn vision_payloads() {
    let p = image_analysis_payload("https://h/x.png");
    let image = p.get("input").unwrap().item(1).unwrap().get("content").unwrap().item(0).unwrap();
    assert_eq!(image, &obj(vec![("type", s("input_image")), ("image_url", s("https://h/x.png"))]));
    assert!(user_text(&p, 0, 0).starts_with("Wyodrębnij CAŁY tekst"));
    assert_eq!(user_text(&p, 1, 1), "Wyodrębnij cały tekst i dane z tego obrazu dokumentacji SPK. Dokładnie odtwórz tabele.");
    let q = image_analysis_payload_b64("QUJD", "image/png");
    let image = q.get("input").unwrap().item(1).unwrap().get("content").unwrap().item(0).unwrap();
    assert_eq!(image.get("image_url"), Some(&s("data:image/png;base64,QUJD")));
    assert_eq!(user_text(&q, 1, 1), "Wyodrębnij cały tekst i dane z tego obrazu dokumentacji SPK.");
}

#[test]
fn image_text_heading() {
    assert_eq!(image_text("trasy.png", "tabela"), "[IMAGE ANALYSIS: trasy.png]\ntabela");
}

#[test]
fn success_code_and_message() {
    assert!(has_success_code(&obj(vec![("code", JsonValue::Number("0".to_string()))])));
    assert!(!has_success_code(&obj(vec![("code", JsonValue::Number("-1".to_string()))])));
    assert!(!has_success_code(&obj(vec![("code", s("0"))])));
    assert!(!has_success_code(&obj(vec![("code", JsonValue::Number("0.0".to_string()))])));
    assert_eq!(response_message(&obj(vec![("message", s("bad route"))])), Some("bad route".to_string()));
    assert_eq!(response_message(&obj(vec![("message", JsonValue::Bool(true))])), None);
}

#[test]
fn verdicts_on_verifier_answers() {
    let ok = obj(vec![("code", JsonValue::Number("0".to_string())), ("message", s("OK"))]);
    assert_eq!(declaration_verdict(&ok, "{\"code\":0}"), Verdict::Accepted);
    let flag = obj(vec![("code", JsonValue::Number("-3".to_string())), ("message", s("{FLG:X}"))]);
    assert_eq!(declaration_verdict(&flag, "{\"message\":\"{FLG:X}\"}"), Verdict::Accepted);
    let refused = obj(vec![("code", JsonValue::Number("-7".to_string())), ("message", s("Zła trasa"))]);
    assert_eq!(declaration_verdict(&refused, "{...}"), Verdict::Refused("Zła trasa".to_string()));
    assert_eq!(declaration_verdict(&s("plain"), "\"plain\""), Verdict::Refused("\"plain\"".to_string()));
}
