use exercises::findhim::{
    access_level_payload, check_api_code, location_payload, get_i32_field, get_string_field, location_reply, parse_access_level_response,
    AccessLevelResponse, LocationReply, ReplyError,
};
use exercises::json::JsonValue;

fn s(t: &str) -> JsonValue {
    JsonValue::Str(t.to_string())
}

fn n(t: &str) -> JsonValue {
    JsonValue::Number(t.to_string())
}

fn obj(entries: Vec<(&str, JsonValue)>) -> JsonValue {
    JsonValue::Object(entries.into_iter().map(|(k, v)| (k.to_string(), v)).collect())
}

#[test]
fn i32_field_takes_first_integer() {
    let o = obj(vec![("accessLevel", s("abc")), ("access_level", n("7")), ("level", n("9"))]);
    assert_eq!(get_i32_field(&o, &["accessLevel", "access_level", "level"]), Some(7));
    assert_eq!(get_i32_field(&obj(vec![("level", s("-12"))]), &["level"]), Some(-12));
    assert_eq!(get_i32_field(&obj(vec![("level", n("3.0"))]), &["level"]), None);
    assert_eq!(get_i32_field(&obj(vec![("level", n("2147483648"))]), &["level"]), None);
    assert_eq!(get_i32_field(&obj(vec![("level", s("+5"))]), &["level"]), Some(5));
    assert_eq!(get_i32_field(&obj(vec![("level", JsonValue::Bool(true))]), &["level"]), None);
    assert_eq!(get_i32_field(&n("5"), &["level"]), None);
}

#[test]
fn string_field_takes_first_string() {
    let o = obj(vec![("message", n("1")), ("error", s("boom"))]);
    assert_eq!(get_string_field(&o, &["message", "error"]), Some("boom".to_string()));
    assert_eq!(get_string_field(&o, &["other"]), None);
}

#[test]
fn access_level_reply() {
    let o = obj(vec![("code", n("0")), ("message", s("ok")), ("level", n("4"))]);
    assert_eq!(
        parse_access_level_response(&o),
        Ok(AccessLevelResponse { code: Some(0), message: Some("ok".to_string()), access_level: 4 })
    );
    assert_eq!(parse_access_level_response(&obj(vec![("code", n("-1"))])), Err(ReplyError::MissingAccessLevel));
    assert_eq!(parse_access_level_response(&JsonValue::Array(vec![])), Err(ReplyError::NotAnObject));
}

#[test]
fn api_code_check() {
    assert_eq!(check_api_code(None, None, "x"), Ok(()));
    assert_eq!(check_api_code(Some(0), Some("ignored".to_string()), "x"), Ok(()));
    assert_eq!(check_api_code(Some(-3), Some("bad".to_string()), "x"), Err("bad".to_string()));
    assert_eq!(
        check_api_code(Some(1), None, "Unknown location API error"),
        Err("Unknown location API error".to_string())
    );
}

#[test]
fn location_reply_shapes() {
    let loc = obj(vec![("lat", n("50.1")), ("lon", n("19.9"))]);
    assert_eq!(
        location_reply(&JsonValue::Array(vec![loc.deep_copy()])),
        Ok(LocationReply { code: Some(0), message: None, entries: vec![loc.deep_copy()] })
    );
    let single = obj(vec![("code", n("0")), ("location", loc.deep_copy())]);
    assert_eq!(location_reply(&single).unwrap().entries, vec![loc.deep_copy()]);
    let both = obj(vec![("locations", JsonValue::Array(vec![])), ("location", loc.deep_copy()), ("error", s("e"))]);
    let reply = location_reply(&both).unwrap();
    assert!(reply.entries.is_empty());
    assert_eq!(reply.code, None);
    assert_eq!(reply.message, Some("e".to_string()));
    assert_eq!(location_reply(&obj(vec![])).unwrap().entries, Vec::<JsonValue>::new());
    assert_eq!(location_reply(&s("x")), Err(ReplyError::NotAnObject));
}

#[test]
fn request_bodies() {
    assert_eq!(
        location_payload("K", "Jan", "Nowak"),
        obj(vec![("apikey", s("K")), ("name", s("Jan")), ("surname", s("Nowak"))])
    );
    assert_eq!(
        access_level_payload("K", "Jan", "Nowak", 1987),
        obj(vec![("apikey", s("K")), ("name", s("Jan")), ("surname", s("Nowak")), ("birthYear", n("1987"))])
    );
    assert_eq!(access_level_payload("K", "a", "b", -5).get("birthYear"), Some(&n("-5")));
    assert_eq!(access_level_payload("K", "a", "b", i32::MIN).get("birthYear"), Some(&n("-2147483648")));
    assert_eq!(access_level_payload("K", "a", "b", 0).get("birthYear"), Some(&n("0")));
}
