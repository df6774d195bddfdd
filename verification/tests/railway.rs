use exercises::json::JsonValue;
use exercises::railway::{
    action_answer, contains_flag, hunt_action, hunt_signal, is_interesting_header, mentions_flag, railway_payload,
    retry_decision, retry_step, route_answer, set_status_answer, HuntSignal, RetryAction, RetryDecision, MAX_RETRIES, ROUTE,
};

fn s(t: &str) -> JsonValue {
    JsonValue::Str(t.to_string())
}

fn obj(entries: Vec<(&str, JsonValue)>) -> JsonValue {
    JsonValue::Object(entries.into_iter().map(|(k, v)| (k.to_string(), v)).collect())
}

#[test]
fn payload_shape() {
    let p = railway_payload("KEY", route_answer("reconfigure", ROUTE));
    assert_eq!(
        p,
        obj(vec![
            ("apikey", s("KEY")),
            ("task", s("railway")),
            ("answer", obj(vec![("action", s("reconfigure")), ("route", s("x-01"))])),
        ])
    );
    assert_eq!(action_answer("help"), obj(vec![("action", s("help"))]));
    assert_eq!(
        set_status_answer(ROUTE, "RTOPEN"),
        obj(vec![("action", s("setstatus")), ("route", s("x-01")), ("value", s("RTOPEN"))])
    );
    assert_eq!(MAX_RETRIES, 30);
}

#[test]
fn hunt_cycles_through_five_actions() {
    assert_eq!(hunt_action(0), action_answer("help"));
    assert_eq!(hunt_action(1), route_answer("getstatus", "x-01"));
    assert_eq!(hunt_action(2), route_answer("reconfigure", "x-01"));
    assert_eq!(hunt_action(3), set_status_answer("x-01", "RTOPEN"));
    assert_eq!(hunt_action(4), route_answer("save", "x-01"));
    assert_eq!(hunt_action(5), action_answer("help"));
    assert_eq!(hunt_action(199), route_answer("save", "x-01"));
}

#[test]
fn throttled_replies_wait() {
    assert_eq!(retry_decision(503, false, Some("7"), Some("9")), RetryDecision::Throttled { wait: 7 });
    assert_eq!(retry_decision(429, false, Some("x"), Some("9")), RetryDecision::Throttled { wait: 9 });
    assert_eq!(retry_decision(429, false, None, None), RetryDecision::Throttled { wait: 2 });
    assert_eq!(retry_decision(503, false, Some("0"), None), RetryDecision::Throttled { wait: 1 });
    assert_eq!(retry_decision(503, false, Some(" 5"), None), RetryDecision::Throttled { wait: 2 });
}

#[test]
fn other_replies_proceed() {
    assert_eq!(retry_decision(200, true, None, None), RetryDecision::Proceed { pause: 0, accept: true });
    assert_eq!(retry_decision(200, true, None, Some("3")), RetryDecision::Proceed { pause: 3, accept: true });
    assert_eq!(retry_decision(500, false, Some("+4"), None), RetryDecision::Proceed { pause: 4, accept: false });
    assert_eq!(retry_decision(400, false, Some("0"), Some("5")), RetryDecision::Proceed { pause: 0, accept: false });
}

#[test]
fn flag_markers() {
    assert!(mentions_flag("x {FLG abc"));
    assert!(mentions_flag("FLG:ABC"));
    assert!(!mentions_flag("FLG ABC"));
    assert!(contains_flag("{\"message\":\"{FLG:X}\"}"));
    assert!(!contains_flag("{FLG"));
}

#[test]
fn interesting_headers() {
    assert!(is_interesting_header("x-ratelimit-reset"));
    assert!(is_interesting_header("flag-here"));
    assert!(is_interesting_header("secret"));
    assert!(!is_interesting_header("content-type"));
    assert!(!is_interesting_header("X-Upper"));
}

#[test]
fn hunt_signals() {
    assert_eq!(hunt_signal("{FLG:SECRET}"), HuntSignal::Secret);
    assert_eq!(hunt_signal("{FLG:COUNTRYROADS}"), HuntSignal::Quiet);
    assert_eq!(hunt_signal("Annoyed? FLG:COUNTRYROADS"), HuntSignal::Annoyed);
    assert_eq!(hunt_signal("you annoy me"), HuntSignal::Annoyed);
    assert_eq!(hunt_signal("ok"), HuntSignal::Quiet);
}

#[test]
fn retry_steps_count_attempts() {
    let throttled = RetryDecision::Throttled { wait: 4 };
    assert_eq!(retry_step(1, &throttled), RetryAction::Resend { sleep: 4, then: 0, next: 2 });
    assert_eq!(retry_step(29, &throttled), RetryAction::Resend { sleep: 4, then: 0, next: 30 });
    assert_eq!(retry_step(30, &throttled), RetryAction::GiveUp { sleep: 4, then: 0 });
    let failed = RetryDecision::Proceed { pause: 2, accept: false };
    assert_eq!(retry_step(3, &failed), RetryAction::Resend { sleep: 2, then: 3, next: 4 });
    assert_eq!(retry_step(30, &failed), RetryAction::GiveUp { sleep: 2, then: 3 });
    let ok = RetryDecision::Proceed { pause: 5, accept: true };
    assert_eq!(retry_step(30, &ok), RetryAction::Accept { sleep: 5 });
    let mut sends = 1;
    let mut attempt = 1;
    while let RetryAction::Resend { next, .. } = retry_step(attempt, &throttled) {
        attempt = next;
        sends += 1;
    }
    assert_eq!(sends, MAX_RETRIES);
}
