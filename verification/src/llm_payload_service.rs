//! Request bodies for the Responses API with a structured JSON answer.

use vstd::prelude::*;
use crate::json::{JsonValue, JsonTree, object1, object2, object3, object4, array1, array2};

verus! {

/// The JSON schema that the model's answer must follow.
#[derive(Debug, PartialEq)]
pub struct JsonSchemaFormat {
    pub name: String,
    pub schema: JsonValue,
    pub strict: bool,
}

/// Builds request bodies for the Responses API.
#[derive(Debug, Clone)]
pub struct LlmPayloadService;

/// One chat turn of the Responses API input: the role and a single
/// `input_text` part.
pub open spec fn input_message(role: Seq<char>, text: Seq<char>) -> JsonTree {
    JsonTree::Object(seq![
        ("role"@, JsonTree::Str(role)),
        ("content"@, JsonTree::Array(seq![JsonTree::Object(seq![
            ("type"@, JsonTree::Str("input_text"@)),
            ("text"@, JsonTree::Str(text)),
        ])])),
    ])
}

/// The request body: model, system and user turns, and the JSON schema
/// answer format.
pub open spec fn responses_payload(
    model: Seq<char>,
    system_prompt: Seq<char>,
    user_prompt: Seq<char>,
    name: Seq<char>,
    strict: bool,
    schema: JsonTree,
) -> JsonTree {
    JsonTree::Object(seq![
        ("model"@, JsonTree::Str(model)),
        ("input"@, JsonTree::Array(seq![
            input_message("system"@, system_prompt),
            input_message("user"@, user_prompt),
        ])),
        ("text"@, JsonTree::Object(seq![
            ("format"@, JsonTree::Object(seq![
                ("type"@, JsonTree::Str("json_schema"@)),
                ("name"@, JsonTree::Str(name)),
                ("strict"@, JsonTree::Bool(strict)),
                ("schema"@, schema),
            ])),
        ])),
    ])
}

fn input_message_value(role: &str, text: &str) -> (r: JsonValue)
    ensures
        r@ == input_message(role@, text@),
{
    let part = object2("type", JsonValue::text("input_text"), "text", JsonValue::text(text));
    object2("role", JsonValue::text(role), "content", array1(part))
}

impl LlmPayloadService {
    /// The Responses API request body for a structured answer.
    pub fn build_responses_payload(
        model: &str,
        system_prompt: &str,
        user_prompt: &str,
        json_schema_format: JsonSchemaFormat,
    ) -> (r: JsonValue)
        ensures
            r@ == responses_payload(
                model@,
                system_prompt@,
                user_prompt@,
                json_schema_format.name@,
                json_schema_format.strict,
                json_schema_format.schema@,
            ),
    {
        let input = array2(
            input_message_value("system", system_prompt),
            input_message_value("user", user_prompt),
        );
        let ghost name = json_schema_format.name@;
        let format = object4(
            "type",
            JsonValue::text("json_schema"),
            "name",
            JsonValue::Str(json_schema_format.name),
            "strict",
            JsonValue::Bool(json_schema_format.strict),
            "schema",
            json_schema_format.schema,
        );
        object3("model", JsonValue::text(model), "input", input, "text", object1("format", format))
    }
}

} // verus!
