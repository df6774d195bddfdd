//! Decisions around the model API: model and key validation, reading the
//! answer text out of a Responses API reply, and telling failures apart.

use vstd::prelude::*;
use crate::json::{JsonValue, JsonTree, get, str_field, items_of, json_of, parse_json};
use crate::text::{trim, chars_of, trim_chars, string_of, all_whitespace, lemma_trim_empty_iff_blank, lemma_trim_idempotent};

verus! {

/// Why a configuration value was refused.
#[derive(Debug, PartialEq, Eq, Structural)]
pub enum ConfigError {
    /// The model name is empty or whitespace.
    EmptyModel,
    /// The API key is empty or whitespace.
    EmptyKey,
}

impl ConfigError {
    /// The human-readable text of the error.
    pub fn message(&self) -> (r: String)
        ensures
            r@ == (match self {
                ConfigError::EmptyModel => "Model must be a non-empty string"@,
                ConfigError::EmptyKey => "AI API key cannot be empty"@,
            }),
    {
        match self {
            ConfigError::EmptyModel => String::from_str("Model must be a non-empty string"),
            ConfigError::EmptyKey => String::from_str("AI API key cannot be empty"),
        }
    }
}

/// The model name, refused when it is blank.
pub fn resolve_model_for_provider(model: &str) -> (r: Result<String, ConfigError>)
    ensures
        trim(model@).len() == 0 ==> r == Err::<String, ConfigError>(ConfigError::EmptyModel),
        trim(model@).len() > 0 ==> (r matches Ok(m) && m@ == model@),
{
    let v = chars_of(model);
    proof {
        lemma_trim_empty_iff_blank(model@);
    }
    if all_whitespace(&v) {
        Err(ConfigError::EmptyModel)
    } else {
        Ok(model.to_owned())
    }
}

/// An API key read from the environment, trimmed; refused when nothing is
/// left.
pub fn normalize_api_key(raw: &str) -> (r: Result<String, ConfigError>)
    ensures
        trim(raw@).len() == 0 ==> r == Err::<String, ConfigError>(ConfigError::EmptyKey),
        trim(raw@).len() > 0 ==> (r matches Ok(k) && k@ == trim(raw@)),
{
    let v = chars_of(raw);
    let t = trim_chars(&v);
    if t.len() == 0 {
        Err(ConfigError::EmptyKey)
    } else {
        Ok(string_of(&t))
    }
}

/// The first non-blank `text` among the content parts `cs[j..]`.
pub open spec fn content_text(cs: Seq<JsonTree>, j: int) -> Option<Seq<char>>
    decreases cs.len() - j,
{
    if j < 0 || j >= cs.len() {
        None
    } else {
        match str_field(cs[j], "text"@) {
            Some(t) => if trim(t).len() > 0 {
                Some(trim(t))
            } else {
                content_text(cs, j + 1)
            },
            None => content_text(cs, j + 1),
        }
    }
}

/// The answer text among the output items `items[i..]`: the first message
/// with non-blank content text. A message without a content array ends the
/// search with nothing.
pub open spec fn output_text(items: Seq<JsonTree>, i: int) -> Option<Seq<char>>
    decreases items.len() - i,
{
    if i < 0 || i >= items.len() {
        None
    } else if str_field(items[i], "type"@) != Some("message"@) {
        output_text(items, i + 1)
    } else {
        match items_of(get(items[i], "content"@)) {
            None => None,
            Some(cs) => match content_text(cs, 0) {
                Some(t) => Some(t),
                None => output_text(items, i + 1),
            },
        }
    }
}

/// The answer text of a Responses API reply: `output_text` when it is not
/// blank, else the first message text in `output`; always trimmed.
pub open spec fn response_text(r: JsonTree) -> Option<Seq<char>> {
    match str_field(r, "output_text"@) {
        Some(t) if trim(t).len() > 0 => Some(trim(t)),
        _ => match items_of(get(r, "output"@)) {
            None => None,
            Some(items) => output_text(items, 0),
        },
    }
}

proof fn lemma_content_text_trimmed(cs: Seq<JsonTree>, j: int)
    ensures
        content_text(cs, j) matches Some(t) ==> t.len() > 0 && trim(t) == t,
    decreases cs.len() - j,
{
    if 0 <= j < cs.len() {
        match str_field(cs[j], "text"@) {
            Some(t) => {
                lemma_trim_idempotent(t);
                if trim(t).len() == 0 {
                    lemma_content_text_trimmed(cs, j + 1);
                }
            },
            None => lemma_content_text_trimmed(cs, j + 1),
        }
    }
}

proof fn lemma_output_text_trimmed(items: Seq<JsonTree>, i: int)
    ensures
        output_text(items, i) matches Some(t) ==> t.len() > 0 && trim(t) == t,
    decreases items.len() - i,
{
    if 0 <= i < items.len() {
        if str_field(items[i], "type"@) != Some("message"@) {
            lemma_output_text_trimmed(items, i + 1);
        } else {
            match items_of(get(items[i], "content"@)) {
                None => {},
                Some(cs) => {
                    lemma_content_text_trimmed(cs, 0);
                    lemma_output_text_trimmed(items, i + 1);
                },
            }
        }
    }
}

/// The answer text read from a reply is never blank and is already
/// trimmed.
pub proof fn law_response_text_trimmed(r: JsonTree)
    ensures
        response_text(r) matches Some(t) ==> t.len() > 0 && trim(t) == t,
{
    match str_field(r, "output_text"@) {
        Some(t) => {
            lemma_trim_idempotent(t);
        },
        None => {},
    }
    match items_of(get(r, "output"@)) {
        None => {},
        Some(items) => lemma_output_text_trimmed(items, 0),
    }
}

/// The trimmed text of `v` when it is a string that is not blank.
fn nonblank_text(v: Option<&JsonValue>) -> (r: Option<String>)
    ensures
        r matches Some(s) ==> (v matches Some(x) && x@ matches JsonTree::Str(t) && trim(t).len() > 0 && s@ == trim(t)),
        r is None ==> !(v matches Some(x) && x@ matches JsonTree::Str(t) && trim(t).len() > 0),
{
    match v {
        Some(x) => match x.as_str() {
            Some(s) => {
                let cs = chars_of(s.as_str());
                let t = trim_chars(&cs);
                if t.len() > 0 {
                    Some(string_of(&t))
                } else {
                    None
                }
            },
            None => None,
        },
        None => None,
    }
}

fn first_content_text(contents: &Vec<JsonValue>) -> (r: Option<String>)
    ensures
        r matches Some(s) ==> content_text(crate::json::trees_of(contents@), 0) == Some(s@),
        r is None ==> content_text(crate::json::trees_of(contents@), 0) is None,
{
    let ghost cs = crate::json::trees_of(contents@);
    proof {
        crate::json::lemma_trees_of(contents@);
    }
    let mut j: usize = 0;
    while j < contents.len()
        invariant
            j <= contents.len(),
            cs == crate::json::trees_of(contents@),
            cs.len() == contents.len(),
            forall|k: int| 0 <= k < contents.len() ==> #[trigger] cs[k] == contents@[k]@,
            content_text(cs, 0) == content_text(cs, j as int),
        decreases contents.len() - j,
    {
        let t = nonblank_text(contents[j].get("text"));
        if t.is_some() {
            return t;
        }
        j = j + 1;
    }
    None
}

/// The answer text of a Responses API reply.
pub fn extract_response_text(response: &JsonValue) -> (r: Option<String>)
    ensures
        r matches Some(s) ==> response_text(response@) == Some(s@),
        r is None ==> response_text(response@) is None,
{
    let direct = nonblank_text(response.get("output_text"));
    if direct.is_some() {
        return direct;
    }
    let output = match response.get("output") {
        Some(o) => o,
        None => return None,
    };
    let items = match output.as_array() {
        Some(items) => items,
        None => return None,
    };
    let ghost ts = crate::json::trees_of(items@);
    proof {
        crate::json::lemma_trees_of(items@);
    }
    let message = String::from_str("message");
    let mut i: usize = 0;
    while i < items.len()
        invariant
            i <= items.len(),
            ts == crate::json::trees_of(items@),
            ts.len() == items.len(),
            forall|k: int| 0 <= k < items.len() ==> #[trigger] ts[k] == items@[k]@,
            message@ == "message"@,
            response_text(response@) == output_text(ts, i as int),
        decreases items.len() - i,
    {
        let item = &items[i];
        let is_message = match item.get("type") {
            Some(t) => match t.as_str() {
                Some(s) => *s == message,
                None => false,
            },
            None => false,
        };
        if is_message {
            let contents = match item.get("content") {
                Some(c) => match c.as_array() {
                    Some(cs) => cs,
                    None => return None,
                },
                None => return None,
            };
            let t = first_content_text(contents);
            if t.is_some() {
                return t;
            }
        }
        i = i + 1;
    }
    None
}


/// Why a model API call is treated as failed.
#[derive(Debug, Clone, PartialEq)]
pub enum ApiFailure {
    /// The HTTP status was not a success; the text is the API's error
    /// message, or a stand-in when the body has none.
    Status(String),
    /// The status was a success but the body carries an error message.
    Message(String),
    /// The body is not JSON; the text is the body.
    NotJson(String),
}

/// The `error.message` text of a reply body.
pub open spec fn error_message(t: JsonTree) -> Option<Seq<char>> {
    match get(t, "error"@) {
        Some(e) => str_field(e, "message"@),
        None => None,
    }
}

fn error_message_of(value: &JsonValue) -> (r: Option<String>)
    ensures
        r matches Some(m) ==> error_message(value@) == Some(m@),
        r is None ==> error_message(value@) is None,
{
    match value.get("error") {
        Some(e) => match e.get("message") {
            Some(m) => match m.as_str() {
                Some(s) => Some(s.clone()),
                None => None,
            },
            None => None,
        },
        None => None,
    }
}

/// Sorts a parsed reply into success or failure: a failed status is an
/// error carrying the body's `error.message` (or "Unknown API error"), and
/// a successful status with an `error.message` is an error too.
pub fn check_api_response(status_success: bool, value: JsonValue) -> (r: Result<JsonValue, ApiFailure>)
    ensures
        !status_success ==> (r matches Err(ApiFailure::Status(m)) && m@ == (match error_message(value@) {
            Some(t) => t,
            None => "Unknown API error"@,
        })),
        status_success && error_message(value@) is Some ==> (r matches Err(ApiFailure::Message(m)) && Some(m@) == error_message(value@)),
        status_success && error_message(value@) is None ==> r == Ok::<JsonValue, ApiFailure>(value),
{
    let message = error_message_of(&value);
    if !status_success {
        return match message {
            Some(m) => Err(ApiFailure::Status(m)),
            None => Err(ApiFailure::Status(String::from_str("Unknown API error"))),
        };
    }
    match message {
        Some(m) => Err(ApiFailure::Message(m)),
        None => Ok(value),
    }
}


/// Reads a reply of the model API: a body that is not JSON is an error
/// carrying the body; a JSON body is then sorted as `check_api_response`
/// sorts it.
pub fn read_api_reply(status_success: bool, body: &str) -> (r: Result<JsonValue, ApiFailure>)
    ensures
        json_of(body@) is None ==> (r matches Err(ApiFailure::NotJson(t)) && t@ == body@),
        json_of(body@) matches Some(v) ==> {
            &&& !status_success ==> (r matches Err(ApiFailure::Status(m)) && m@ == (match error_message(v) {
                Some(t) => t,
                None => "Unknown API error"@,
            }))
            &&& status_success && error_message(v) is Some ==> (r matches Err(ApiFailure::Message(m)) && Some(m@) == error_message(v))
            &&& status_success && error_message(v) is None ==> (r matches Ok(x) && x@ == v)
        },
{
    match parse_json(body) {
        Some(value) => check_api_response(status_success, value),
        None => Err(ApiFailure::NotJson(String::from_str(body))),
    }
}

} // verus!
