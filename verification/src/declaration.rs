//! Filling in the transport declaration: the prompts and request bodies
//! for the model, image reading requests, and reading the model's and the
//! verifier's answers.

use vstd::prelude::*;
use crate::json::{JsonValue, JsonTree, json_of, parse_json, get, str_field, object1, object2, object3, object4, array1, array2};
use crate::llm_payload_service::{LlmPayloadService, JsonSchemaFormat, responses_payload};
use crate::text::{trim, join, views, chars_of, trim_chars, string_of, push_str, join_strings, contains};
use crate::railway::contains_flag;

verus! {

/// The model used for the declaration and for reading images.
pub const MODEL: &'static str = "gpt-5.4";

/// The instructions for writing the declaration.
pub const DECLARATION_SYSTEM_PROMPT: &'static str = "Jesteś ekspertem od wypełniania deklaracji transportowych w Systemie Przesyłek Konduktorskich (SPK).\n\nNa podstawie dostarczonej dokumentacji wypełnij deklarację transportową DOKŁADNIE według wzoru z Załącznika E.\n\nDane przesyłki:\n- Identyfikator nadawcy: 450202122\n- Punkt nadawczy: Gdańsk\n- Punkt docelowy: Żarnowiec\n- Waga: 2800 kg (2.8 tony)\n- Budżet: 0 PP — przesyłka musi być darmowa lub finansowana przez System\n- Zawartość: kasety z paliwem do reaktora\n- Uwagi specjalne: BRAK (nie wpisuj żadnych uwag specjalnych)\n\nZasady:\n1. Użyj DOKŁADNIE wzoru z Załącznika E — każdy separator, pole, kolejność.\n2. Ustal poprawny kod trasy z Gdańska do Żarnowca na podstawie sieci połączeń (sekcja 3) i tras wyłączonych (sekcja 8).\n3. Kategoria A (strategiczna) — opłata 0 PP (finansowana przez System). Kasety do reaktora to podzespoły infrastruktury krytycznej.\n4. Wypełnij WSZYSTKIE pola poprawnie.\n5. NIE dodawaj uwag specjalnych.\n6. Zwróć tekst deklaracji w polu declaration_text. Użyj \\n dla nowych linii.\n7. Zachowaj format wzoru DOKŁADNIE.";

/// The instructions for correcting a refused declaration.
pub const FIX_SYSTEM_PROMPT: &'static str = "Jesteś ekspertem od deklaracji transportowych SPK.\nPoprzednia deklaracja została odrzucona. Popraw ją na podstawie komunikatu błędu i pełnej dokumentacji.\n\nDane przesyłki:\n- Identyfikator nadawcy: 450202122\n- Punkt nadawczy: Gdańsk\n- Punkt docelowy: Żarnowiec\n- Waga: 2800 kg\n- Budżet: 0 PP\n- Zawartość: kasety z paliwem do reaktora\n- Uwagi specjalne: BRAK\n\nWAŻNE: Deklaracja musi DOKŁADNIE odpowiadać wzorowi z Załącznika E — zachowaj identyczny format, separatory, nagłówki.\nZwróć TYLKO poprawiony tekst deklaracji w polu declaration_text. Użyj \\n dla nowych linii.";

/// The documents as one text: each as `### FILE: name` and its content,
/// separated by rules.
pub open spec fn documents_text(docs: Seq<(Seq<char>, Seq<char>)>) -> Seq<char> {
    join(Seq::new(docs.len(), |i: int| "### FILE: "@ + docs[i].0 + "\n"@ + docs[i].1), "\n\n---\n\n"@)
}

/// The documents as one text.
pub fn join_documents(docs: &Vec<(String, String)>) -> (r: String)
    ensures
        r@ == documents_text(docs@.map_values(|d: (String, String)| (d.0@, d.1@))),
{
    let mut parts: Vec<String> = Vec::new();
    let mut i: usize = 0;
    while i < docs.len()
        invariant
            i <= docs.len(),
            parts@.len() == i,
            forall|k: int| 0 <= k < i ==> (#[trigger] parts@[k])@ == "### FILE: "@ + docs@[k].0@ + "\n"@ + docs@[k].1@,
        decreases docs.len() - i,
    {
        let mut part = String::from_str("### FILE: ");
        push_str(&mut part, docs[i].0.as_str());
        push_str(&mut part, "\n");
        push_str(&mut part, docs[i].1.as_str());
        parts.push(part);
        i = i + 1;
    }
    let ghost ds = docs@.map_values(|d: (String, String)| (d.0@, d.1@));
    assert(views(parts@) == Seq::new(ds.len(), |i: int| "### FILE: "@ + ds[i].0 + "\n"@ + ds[i].1));
    join_strings(&parts, "\n\n---\n\n")
}

/// The user prompt for writing the declaration.
pub open spec fn declaration_prompt(all_docs: Seq<char>) -> Seq<char> {
    "Oto cała pobrana dokumentacja SPK:\n\n"@ + all_docs + "\n\nWypełnij deklarację transportową."@
}

/// The user prompt for correcting a refused declaration.
pub open spec fn fix_prompt(all_docs: Seq<char>, current: Seq<char>, error: Seq<char>) -> Seq<char> {
    "Pełna dokumentacja SPK:\n\n"@ + all_docs + "\n\n---\nOdrzucona deklaracja:\n"@ + current
        + "\n\n---\nKomunikat błędu:\n"@ + error + "\n\nPopraw deklarację."@
}

/// The schema of the model's answer: an object with `declaration_text`.
pub open spec fn declaration_schema() -> JsonTree {
    JsonTree::Object(seq![
        ("type"@, JsonTree::Str("object"@)),
        ("properties"@, JsonTree::Object(seq![
            ("declaration_text"@, JsonTree::Object(seq![("type"@, JsonTree::Str("string"@))])),
        ])),
        ("required"@, JsonTree::Array(seq![JsonTree::Str("declaration_text"@)])),
        ("additionalProperties"@, JsonTree::Bool(false)),
    ])
}

fn declaration_schema_value() -> (r: JsonValue)
    ensures
        r@ == declaration_schema(),
{
    object4(
        "type", JsonValue::text("object"),
        "properties", object1("declaration_text", object1("type", JsonValue::text("string"))),
        "required", array1(JsonValue::text("declaration_text")),
        "additionalProperties", JsonValue::Bool(false),
    )
}

/// The request body that asks for a declaration built from the documents.
pub fn declaration_payload(all_docs: &str) -> (r: JsonValue)
    ensures
        r@ == responses_payload(MODEL@, DECLARATION_SYSTEM_PROMPT@, declaration_prompt(all_docs@), "declaration"@, true, declaration_schema()),
{
    let mut user = String::from_str("Oto cała pobrana dokumentacja SPK:\n\n");
    push_str(&mut user, all_docs);
    push_str(&mut user, "\n\nWypełnij deklarację transportową.");
    LlmPayloadService::build_responses_payload(
        MODEL,
        DECLARATION_SYSTEM_PROMPT,
        user.as_str(),
        JsonSchemaFormat { name: String::from_str("declaration"), schema: declaration_schema_value(), strict: true },
    )
}

/// The request body that asks for a corrected declaration.
pub fn fix_declaration_payload(all_docs: &str, current: &str, error: &str) -> (r: JsonValue)
    ensures
        r@ == responses_payload(MODEL@, FIX_SYSTEM_PROMPT@, fix_prompt(all_docs@, current@, error@), "declaration_fix"@, true, declaration_schema()),
{
    let mut user = String::from_str("Pełna dokumentacja SPK:\n\n");
    push_str(&mut user, all_docs);
    push_str(&mut user, "\n\n---\nOdrzucona deklaracja:\n");
    push_str(&mut user, current);
    push_str(&mut user, "\n\n---\nKomunikat błędu:\n");
    push_str(&mut user, error);
    push_str(&mut user, "\n\nPopraw deklarację.");
    LlmPayloadService::build_responses_payload(
        MODEL,
        FIX_SYSTEM_PROMPT,
        user.as_str(),
        JsonSchemaFormat { name: String::from_str("declaration_fix"), schema: declaration_schema_value(), strict: true },
    )
}

/// The declaration in the model's answer: `declaration_text`, trimmed.
pub open spec fn declaration_of(parsed: JsonTree) -> Option<Seq<char>> {
    match str_field(parsed, "declaration_text"@) {
        Some(t) => Some(trim(t)),
        None => None,
    }
}

/// The declaration in the model's parsed answer.
pub fn declaration_text(parsed: &JsonValue) -> (r: Option<String>)
    ensures
        r matches Some(d) ==> declaration_of(parsed@) == Some(d@),
        r is None ==> declaration_of(parsed@) is None,
{
    match parsed.get("declaration_text") {
        Some(v) => match v.as_str() {
            Some(s) => Some(string_of(&trim_chars(&chars_of(s.as_str())))),
            None => None,
        },
        None => None,
    }
}


/// Instructions for reading an image given by its address.
pub const VISION_SYSTEM_PROMPT: &'static str = "Wyodrębnij CAŁY tekst, tabele, kody, numery tras i dane z tego obrazu. Bądź maksymalnie precyzyjny. Odtwórz tabele dokładnie w formacie tekstowym. Nie pomijaj żadnych detali — każda linia, każdy kod trasy, każda wartość.";

/// The request that goes with an image given by its address.
pub const VISION_USER_PROMPT: &'static str = "Wyodrębnij cały tekst i dane z tego obrazu dokumentacji SPK. Dokładnie odtwórz tabele.";

/// Instructions for reading an image sent inline.
pub const VISION_INLINE_SYSTEM_PROMPT: &'static str = "Wyodrębnij CAŁY tekst, tabele, kody, numery tras i dane z tego obrazu. Bądź maksymalnie precyzyjny. Odtwórz tabele dokładnie.";

/// The request that goes with an image sent inline.
pub const VISION_INLINE_USER_PROMPT: &'static str = "Wyodrębnij cały tekst i dane z tego obrazu dokumentacji SPK.";

/// A request body that asks the model to read the image at `image_url`.
pub open spec fn vision_payload(system: Seq<char>, image_url: Seq<char>, user: Seq<char>) -> JsonTree {
    JsonTree::Object(seq![
        ("model"@, JsonTree::Str(MODEL@)),
        ("input"@, JsonTree::Array(seq![
            JsonTree::Object(seq![
                ("role"@, JsonTree::Str("system"@)),
                ("content"@, JsonTree::Array(seq![JsonTree::Object(seq![
                    ("type"@, JsonTree::Str("input_text"@)),
                    ("text"@, JsonTree::Str(system)),
                ])])),
            ]),
            JsonTree::Object(seq![
                ("role"@, JsonTree::Str("user"@)),
                ("content"@, JsonTree::Array(seq![
                    JsonTree::Object(seq![
                        ("type"@, JsonTree::Str("input_image"@)),
                        ("image_url"@, JsonTree::Str(image_url)),
                    ]),
                    JsonTree::Object(seq![
                        ("type"@, JsonTree::Str("input_text"@)),
                        ("text"@, JsonTree::Str(user)),
                    ]),
                ])),
            ]),
        ])),
    ])
}

fn vision_payload_value(system: &str, image_url: &str, user: &str) -> (r: JsonValue)
    ensures
        r@ == vision_payload(system@, image_url@, user@),
{
    let system_turn = object2(
        "role", JsonValue::text("system"),
        "content", array1(object2("type", JsonValue::text("input_text"), "text", JsonValue::text(system))),
    );
    let image = object2("type", JsonValue::text("input_image"), "image_url", JsonValue::text(image_url));
    let request = object2("type", JsonValue::text("input_text"), "text", JsonValue::text(user));
    let user_turn = object2("role", JsonValue::text("user"), "content", array2(image, request));
    object2("model", JsonValue::text(MODEL), "input", array2(system_turn, user_turn))
}

/// The request body that asks the model to read the image at an address.
pub fn image_analysis_payload(image_url: &str) -> (r: JsonValue)
    ensures
        r@ == vision_payload(VISION_SYSTEM_PROMPT@, image_url@, VISION_USER_PROMPT@),
{
    vision_payload_value(VISION_SYSTEM_PROMPT, image_url, VISION_USER_PROMPT)
}

/// The data URL of an inline image.
pub open spec fn data_url(mime: Seq<char>, b64: Seq<char>) -> Seq<char> {
    "data:"@ + mime + ";base64,"@ + b64
}

/// The request body that asks the model to read an image sent inline as
/// base64 of the media type `mime`.
pub fn image_analysis_payload_b64(b64: &str, mime: &str) -> (r: JsonValue)
    ensures
        r@ == vision_payload(VISION_INLINE_SYSTEM_PROMPT@, data_url(mime@, b64@), VISION_INLINE_USER_PROMPT@),
{
    let mut url = String::from_str("data:");
    push_str(&mut url, mime);
    push_str(&mut url, ";base64,");
    push_str(&mut url, b64);
    vision_payload_value(VISION_INLINE_SYSTEM_PROMPT, url.as_str(), VISION_INLINE_USER_PROMPT)
}

/// The text kept for an image: a heading naming it, then what the model
/// read from it.
pub fn image_text(path: &str, description: &str) -> (r: String)
    ensures
        r@ == "[IMAGE ANALYSIS: "@ + path@ + "]\n"@ + description@,
{
    let mut r = String::from_str("[IMAGE ANALYSIS: ");
    push_str(&mut r, path);
    push_str(&mut r, "]\n");
    push_str(&mut r, description);
    r
}

/// The verifier's `code` is the number zero.
pub open spec fn accepted_code(resp: JsonTree) -> bool {
    get(resp, "code"@) == Some(JsonTree::Number("0"@))
}

/// Whether the verifier's answer has the code zero.
pub fn has_success_code(resp: &JsonValue) -> (r: bool)
    ensures
        r == accepted_code(resp@),
{
    let zero = String::from_str("0");
    match resp.get("code") {
        Some(JsonValue::Number(n)) => *n == zero,
        _ => false,
    }
}

/// The verifier's `message`, when it is a string.
pub fn response_message(resp: &JsonValue) -> (r: Option<String>)
    ensures
        r matches Some(m) ==> str_field(resp@, "message"@) == Some(m@),
        r is None ==> str_field(resp@, "message"@) is None,
{
    match resp.get("message") {
        Some(m) => match m.as_str() {
            Some(s) => Some(s.clone()),
            None => None,
        },
        None => None,
    }
}

/// What the verifier made of a submitted declaration.
#[derive(Debug, PartialEq)]
pub enum Verdict {
    /// Accepted: the answer shows a flag or the code zero.
    Accepted,
    /// Refused, with the message to correct the declaration by.
    Refused(String),
}

/// The verdict on the verifier's answer `resp`, whose text is `resp_text`:
/// accepted when the text shows `FLG:` or the code is zero, else refused
/// with the answer's `message`, or its whole text when it has none.
pub open spec fn verdict_of(resp: JsonTree, resp_text: Seq<char>) -> Option<Seq<char>> {
    if contains(resp_text, "FLG:"@) || accepted_code(resp) {
        None
    } else {
        Some(match str_field(resp, "message"@) {
            Some(m) => m,
            None => resp_text,
        })
    }
}

/// The verdict on the verifier's answer to a declaration.
pub fn declaration_verdict(resp: &JsonValue, resp_text: &str) -> (r: Verdict)
    ensures
        verdict_of(resp@, resp_text@) is None ==> r == Verdict::Accepted,
        verdict_of(resp@, resp_text@) matches Some(m) ==> (r matches Verdict::Refused(t) && t@ == m),
{
    if contains_flag(resp_text) || has_success_code(resp) {
        Verdict::Accepted
    } else {
        match response_message(resp) {
            Some(m) => Verdict::Refused(m),
            None => Verdict::Refused(String::from_str(resp_text)),
        }
    }
}


/// Why the model's answer holds no declaration.
#[derive(Debug, PartialEq, Eq, Structural)]
pub enum DeclarationError {
    /// The answer is not JSON.
    NotJson,
    /// The answer has no string `declaration_text`.
    MissingText,
}

/// The declaration in the model's answer text: an error when the text is
/// not JSON or lacks `declaration_text`, else that field trimmed.
pub fn read_declaration(raw: &str) -> (r: Result<String, DeclarationError>)
    ensures
        json_of(raw@) is None ==> r == Err::<String, DeclarationError>(DeclarationError::NotJson),
        json_of(raw@) matches Some(t) ==> (match declaration_of(t) {
            Some(d) => r matches Ok(x) && x@ == d,
            None => r == Err::<String, DeclarationError>(DeclarationError::MissingText),
        }),
{
    match parse_json(raw) {
        Some(v) => match declaration_text(&v) {
            Some(d) => Ok(d),
            None => Err(DeclarationError::MissingText),
        },
        None => Err(DeclarationError::NotJson),
    }
}


/// How many times a declaration is submitted at most.
pub const SUBMISSIONS: usize = 8;

/// The verdict when the submission itself failed with `error`: accepted
/// when the error text shows `FLG:`, else refused with that text.
pub fn error_verdict(error: String) -> (r: Verdict)
    ensures
        contains(error@, "FLG:"@) ==> r == Verdict::Accepted,
        !contains(error@, "FLG:"@) ==> (r matches Verdict::Refused(m) && m@ == error@),
{
    if contains_flag(error.as_str()) {
        Verdict::Accepted
    } else {
        Verdict::Refused(error)
    }
}

/// What follows submission number `attempt` (counted from one).
#[derive(Debug, PartialEq)]
pub enum SubmitStep {
    /// The declaration was accepted.
    Accepted,
    /// Correct the declaration by `message` and submit it as attempt
    /// `next`.
    Fix { message: String, next: usize },
    /// Refused on the last allowed attempt.
    Exhausted,
}

/// What follows submission number `attempt` with the verdict `verdict`.
pub fn submission_step(attempt: usize, verdict: Verdict) -> (r: SubmitStep)
    ensures
        verdict == Verdict::Accepted ==> r == SubmitStep::Accepted,
        verdict matches Verdict::Refused(m) ==> (if attempt < SUBMISSIONS {
            r matches SubmitStep::Fix { message, next } && message@ == m@ && next == attempt + 1
        } else {
            r == SubmitStep::Exhausted
        }),
{
    match verdict {
        Verdict::Accepted => SubmitStep::Accepted,
        Verdict::Refused(message) => {
            if attempt < SUBMISSIONS {
                SubmitStep::Fix { message, next: attempt + 1 }
            } else {
                SubmitStep::Exhausted
            }
        },
    }
}

} // verus!
