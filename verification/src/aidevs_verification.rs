//! Answers to the course's verification endpoint: the key, the request
//! body, and what a reply becomes.

use vstd::prelude::*;
use crate::json::{JsonValue, JsonTree, object3, json_of, parse_json};
use crate::text::{trim, chars_of, trim_chars, string_of, all_whitespace, lemma_trim_empty_iff_blank};

verus! {

/// Sends answers to the verification endpoint under an API key.
#[derive(Debug, Clone)]
pub struct AiDevsVerification {
    api_key: String,
}

/// Why an answer could not be sent.
#[derive(Debug, PartialEq, Eq, Structural)]
pub enum VerifyError {
    /// The key is empty or whitespace.
    EmptyKey,
    /// The task name is empty or whitespace.
    EmptyTask,
}

impl VerifyError {
    /// The human-readable text of the error.
    pub fn message(&self) -> (r: String)
        ensures
            r@ == (match self {
                VerifyError::EmptyKey => "DEVS_KEY cannot be empty"@,
                VerifyError::EmptyTask => "Task cannot be empty"@,
            }),
    {
        match self {
            VerifyError::EmptyKey => String::from_str("DEVS_KEY cannot be empty"),
            VerifyError::EmptyTask => String::from_str("Task cannot be empty"),
        }
    }
}

/// The verification request: key, task name and answer.
pub open spec fn verify_request(api_key: Seq<char>, task: Seq<char>, answer: JsonTree) -> JsonTree {
    JsonTree::Object(seq![
        ("apikey"@, JsonTree::Str(api_key)),
        ("task"@, JsonTree::Str(task)),
        ("answer"@, answer),
    ])
}

impl AiDevsVerification {
    /// The key this verifier sends.
    pub closed spec fn key(&self) -> Seq<char> {
        self.api_key@
    }

    /// A verifier for the key read from the environment, trimmed; refused
    /// when nothing is left.
    pub fn from_key(raw: &str) -> (r: Result<AiDevsVerification, VerifyError>)
        ensures
            trim(raw@).len() == 0 ==> r == Err::<AiDevsVerification, VerifyError>(VerifyError::EmptyKey),
            trim(raw@).len() > 0 ==> (r matches Ok(v) && v.key() == trim(raw@)),
    {
        let t = trim_chars(&chars_of(raw));
        if t.len() == 0 {
            Err(VerifyError::EmptyKey)
        } else {
            Ok(AiDevsVerification { api_key: string_of(&t) })
        }
    }

    /// The request body for the answer to `task`; refused for a blank task
    /// name.
    pub fn verify_payload(&self, task: &str, answer: JsonValue) -> (r: Result<JsonValue, VerifyError>)
        ensures
            trim(task@).len() == 0 ==> (r matches Err(e) && e == VerifyError::EmptyTask),
            trim(task@).len() > 0 ==> (r matches Ok(p) && p@ == verify_request(self.key(), task@, answer@)),
    {
        let t = chars_of(task);
        proof {
            lemma_trim_empty_iff_blank(task@);
        }
        if all_whitespace(&t) {
            return Err(VerifyError::EmptyTask);
        }
        Ok(object3("apikey", JsonValue::Str(self.api_key.clone()), "task", JsonValue::text(task), "answer", answer))
    }
}

/// What a successful reply becomes: its JSON when the body parsed, else
/// the body as a string.
pub fn verify_result(parsed: Option<JsonValue>, body: String) -> (r: JsonValue)
    ensures
        parsed matches Some(v) ==> r@ == v@,
        parsed is None ==> r@ == JsonTree::Str(body@),
{
    match parsed {
        Some(v) => v,
        None => JsonValue::Str(body),
    }
}


/// A successful reply body as a value: its JSON when it is JSON, else the
/// body as a string.
pub fn verify_reply(body: String) -> (r: JsonValue)
    ensures
        r@ == (match json_of(body@) {
            Some(t) => t,
            None => JsonTree::Str(body@),
        }),
{
    let parsed = parse_json(body.as_str());
    verify_result(parsed, body)
}

/// What a verification request gives: for a failed status, the error
/// carrying the body; else the body as a value.
pub fn verify_outcome(status_success: bool, body: String) -> (r: Result<JsonValue, String>)
    ensures
        !status_success ==> r == Err::<JsonValue, String>(body),
        status_success ==> (r matches Ok(v) && v@ == (match json_of(body@) {
            Some(t) => t,
            None => JsonTree::Str(body@),
        })),
{
    if !status_success {
        return Err(body);
    }
    Ok(verify_reply(body))
}

} // verus!
