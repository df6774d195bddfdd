//! The railway route task: the answers sent to the verifier, how a reply
//! decides between waiting, retrying and accepting, and what marks a flag.

use vstd::prelude::*;
use crate::json::{JsonValue, JsonTree, object1, object2, object3};
use crate::text::{contains, starts_with, parse_u64, chars_of, chars_contain, chars_start_with, parse_u64_chars};

verus! {

/// The route the task reconfigures.
pub const ROUTE: &'static str = "x-01";

/// How many times a request is sent before giving up.
pub const MAX_RETRIES: u32 = 30;

/// The verifier request: the key, the task name and the answer.
pub open spec fn railway_request(api_key: Seq<char>, answer: JsonTree) -> JsonTree {
    JsonTree::Object(seq![
        ("apikey"@, JsonTree::Str(api_key)),
        ("task"@, JsonTree::Str("railway"@)),
        ("answer"@, answer),
    ])
}

/// The verifier request for the answer `answer`.
pub fn railway_payload(api_key: &str, answer: JsonValue) -> (r: JsonValue)
    ensures
        r@ == railway_request(api_key@, answer@),
{
    object3("apikey", JsonValue::text(api_key), "task", JsonValue::text("railway"), "answer", answer)
}

/// An answer with an action alone.
pub fn action_answer(action: &str) -> (r: JsonValue)
    ensures
        r@ == JsonTree::Object(seq![("action"@, JsonTree::Str(action@))]),
{
    object1("action", JsonValue::text(action))
}

/// An answer with an action on a route.
pub fn route_answer(action: &str, route: &str) -> (r: JsonValue)
    ensures
        r@ == JsonTree::Object(seq![("action"@, JsonTree::Str(action@)), ("route"@, JsonTree::Str(route@))]),
{
    object2("action", JsonValue::text(action), "route", JsonValue::text(route))
}

/// An answer that sets the status of a route.
pub fn set_status_answer(route: &str, value: &str) -> (r: JsonValue)
    ensures
        r@ == JsonTree::Object(seq![
            ("action"@, JsonTree::Str("setstatus"@)),
            ("route"@, JsonTree::Str(route@)),
            ("value"@, JsonTree::Str(value@)),
        ]),
{
    object3("action", JsonValue::text("setstatus"), "route", JsonValue::text(route), "value", JsonValue::text(value))
}

/// The answer sent at step `i` of the hunt: the five actions in turn.
pub open spec fn hunt_answer(i: int) -> JsonTree {
    let k = i % 5;
    if k == 0 {
        JsonTree::Object(seq![("action"@, JsonTree::Str("help"@))])
    } else if k == 1 {
        JsonTree::Object(seq![("action"@, JsonTree::Str("getstatus"@)), ("route"@, JsonTree::Str(ROUTE@))])
    } else if k == 2 {
        JsonTree::Object(seq![("action"@, JsonTree::Str("reconfigure"@)), ("route"@, JsonTree::Str(ROUTE@))])
    } else if k == 3 {
        JsonTree::Object(seq![
            ("action"@, JsonTree::Str("setstatus"@)),
            ("route"@, JsonTree::Str(ROUTE@)),
            ("value"@, JsonTree::Str("RTOPEN"@)),
        ])
    } else {
        JsonTree::Object(seq![("action"@, JsonTree::Str("save"@)), ("route"@, JsonTree::Str(ROUTE@))])
    }
}

/// The answer sent at step `i` of the hunt.
pub fn hunt_action(i: usize) -> (r: JsonValue)
    ensures
        r@ == hunt_answer(i as int),
{
    let k = i % 5;
    if k == 0 {
        action_answer("help")
    } else if k == 1 {
        route_answer("getstatus", ROUTE)
    } else if k == 2 {
        route_answer("reconfigure", ROUTE)
    } else if k == 3 {
        set_status_answer(ROUTE, "RTOPEN")
    } else {
        route_answer("save", ROUTE)
    }
}

/// What to do with a reply.
#[derive(Debug, PartialEq, Eq, Structural)]
pub enum RetryDecision {
    /// Overloaded or rate limited: wait this many seconds and send again.
    Throttled { wait: u64 },
    /// Wait `pause` seconds (none when zero); then take the reply when
    /// `accept`, else wait three seconds and send again.
    Proceed { pause: u64, accept: bool },
}

/// A header value read as a number of seconds.
pub open spec fn header_seconds(v: Option<Seq<char>>) -> Option<u64> {
    match v {
        Some(t) => parse_u64(t),
        None => None,
    }
}

/// The decision for a reply with the HTTP status `status` and the
/// `retry-after` and `x-ratelimit-reset` header texts.
pub open spec fn retry_decision_of(status: u16, success: bool, retry_after: Option<Seq<char>>, rate_reset: Option<Seq<char>>) -> RetryDecision {
    let hint = match header_seconds(retry_after) {
        Some(w) => Some(w),
        None => header_seconds(rate_reset),
    };
    if status == 503 || status == 429 {
        let w = match hint {
            Some(w) => w,
            None => 2,
        };
        RetryDecision::Throttled { wait: if w < 1 { 1 } else { w } }
    } else {
        RetryDecision::Proceed {
            pause: match hint {
                Some(w) => w,
                None => 0,
            },
            accept: success,
        }
    }
}

fn header_seconds_of(v: Option<&str>) -> (r: Option<u64>)
    ensures
        r == header_seconds(match v {
            Some(t) => Some(t@),
            None => None,
        }),
{
    match v {
        Some(t) => parse_u64_chars(&chars_of(t)),
        None => None,
    }
}

/// How to go on after a reply.
pub fn retry_decision(status: u16, success: bool, retry_after: Option<&str>, rate_reset: Option<&str>) -> (r: RetryDecision)
    ensures
        r == retry_decision_of(
            status,
            success,
            match retry_after {
                Some(t) => Some(t@),
                None => None,
            },
            match rate_reset {
                Some(t) => Some(t@),
                None => None,
            },
        ),
{
    let hint = match header_seconds_of(retry_after) {
        Some(w) => Some(w),
        None => header_seconds_of(rate_reset),
    };
    if status == 503 || status == 429 {
        let w = match hint {
            Some(w) => w,
            None => 2,
        };
        RetryDecision::Throttled { wait: if w < 1 { 1 } else { w } }
    } else {
        RetryDecision::Proceed {
            pause: match hint {
                Some(w) => w,
                None => 0,
            },
            accept: success,
        }
    }
}

/// What the request loop does after attempt number `attempt`.
#[derive(Debug, PartialEq, Eq, Structural)]
pub enum RetryAction {
    /// Sleep `sleep` seconds (none when zero), then take the reply.
    Accept { sleep: u64 },
    /// Sleep `sleep` seconds, then `then` more (each none when zero), then
    /// send attempt number `next`.
    Resend { sleep: u64, then: u64, next: u32 },
    /// Sleep as for a resend, then stop: all `MAX_RETRIES` attempts are
    /// used up.
    GiveUp { sleep: u64, then: u64 },
}

/// The action after attempt `attempt` with the decision `d`: a throttled
/// reply is waited on, a failed one is paused on and then waited on for
/// three seconds, and either is sent again while attempts are left.
pub open spec fn retry_action_of(attempt: u32, d: RetryDecision) -> RetryAction {
    match d {
        RetryDecision::Proceed { pause, accept: true } => RetryAction::Accept { sleep: pause },
        _ => {
            let (sleep, then) = match d {
                RetryDecision::Throttled { wait } => (wait, 0u64),
                RetryDecision::Proceed { pause, .. } => (pause, 3u64),
            };
            if attempt < MAX_RETRIES {
                RetryAction::Resend { sleep, then, next: (attempt + 1) as u32 }
            } else {
                RetryAction::GiveUp { sleep, then }
            }
        },
    }
}

/// The action after attempt `attempt` with the decision `decision`.
pub fn retry_step(attempt: u32, decision: &RetryDecision) -> (r: RetryAction)
    ensures
        r == retry_action_of(attempt, *decision),
{
    let (sleep, then) = match decision {
        RetryDecision::Proceed { pause, accept } => {
            if *accept {
                return RetryAction::Accept { sleep: *pause };
            }
            (*pause, 3u64)
        },
        RetryDecision::Throttled { wait } => (*wait, 0u64),
    };
    if attempt < MAX_RETRIES {
        RetryAction::Resend { sleep, then, next: attempt + 1 }
    } else {
        RetryAction::GiveUp { sleep, then }
    }
}

/// Counting attempts from one, the loop sends at most `MAX_RETRIES`
/// requests: each resend is the next attempt, and none follows the last.
pub proof fn law_at_most_max_retries(attempt: u32, d: RetryDecision)
    ensures
        retry_action_of(attempt, d) matches RetryAction::Resend { next, .. } ==> next == attempt + 1 && next <= MAX_RETRIES,
        attempt >= MAX_RETRIES ==> !(retry_action_of(attempt, d) is Resend),
{
}

/// Text that carries a flag marker.
pub open spec fn has_flag_marker(text: Seq<char>) -> bool {
    contains(text, "FLG:"@) || contains(text, "{FLG"@)
}

/// Whether the text carries a flag marker (`FLG:` or `{FLG`).
pub fn mentions_flag(text: &str) -> (r: bool)
    ensures
        r == has_flag_marker(text@),
{
    let t = chars_of(text);
    chars_contain(&t, &chars_of("FLG:")) || chars_contain(&t, &chars_of("{FLG"))
}

/// Whether the text contains `FLG:`.
pub fn contains_flag(text: &str) -> (r: bool)
    ensures
        r == contains(text@, "FLG:"@),
{
    chars_contain(&chars_of(text), &chars_of("FLG:"))
}

/// A header worth showing: its name starts with `x-`, `flag` or `secret`.
pub fn is_interesting_header(name: &str) -> (r: bool)
    ensures
        r == (starts_with(name@, "x-"@) || starts_with(name@, "flag"@) || starts_with(name@, "secret"@)),
{
    let n = chars_of(name);
    chars_start_with(&n, &chars_of("x-")) || chars_start_with(&n, &chars_of("flag"))
        || chars_start_with(&n, &chars_of("secret"))
}

/// What a reply during the hunt shows.
#[derive(Debug, PartialEq, Eq, Structural)]
pub enum HuntSignal {
    /// A flag other than the known one: the hunt is over.
    Secret,
    /// The verifier is annoyed.
    Annoyed,
    /// Nothing of note.
    Quiet,
}

/// What a reply body during the hunt shows.
pub open spec fn hunt_signal_of(body: Seq<char>) -> HuntSignal {
    if contains(body, "FLG:"@) && !contains(body, "COUNTRYROADS"@) {
        HuntSignal::Secret
    } else if contains(body, "annoy"@) || contains(body, "Annoy"@) {
        HuntSignal::Annoyed
    } else {
        HuntSignal::Quiet
    }
}

/// What a reply body during the hunt shows.
pub fn hunt_signal(body: &str) -> (r: HuntSignal)
    ensures
        r == hunt_signal_of(body@),
{
    let b = chars_of(body);
    if chars_contain(&b, &chars_of("FLG:")) && !chars_contain(&b, &chars_of("COUNTRYROADS")) {
        HuntSignal::Secret
    } else if chars_contain(&b, &chars_of("annoy")) || chars_contain(&b, &chars_of("Annoy")) {
        HuntSignal::Annoyed
    } else {
        HuntSignal::Quiet
    }
}

/// An overloaded or rate-limited reply is always waited on for at least
/// a second, whatever the headers say.
pub proof fn law_throttle_waits(status: u16, success: bool, retry_after: Option<Seq<char>>, rate_reset: Option<Seq<char>>)
    requires
        status == 503 || status == 429,
    ensures
        retry_decision_of(status, success, retry_after, rate_reset) matches RetryDecision::Throttled { wait } && wait >= 1,
{
}

/// The hunt repeats the same five answers.
pub proof fn law_hunt_cycle(i: int)
    requires
        i >= 0,
    ensures
        hunt_answer(i + 5) == hunt_answer(i),
{
    assert((i + 5) % 5 == i % 5);
}


/// How many answers the hunt sends at most.
pub const HUNT_ATTEMPTS: usize = 200;

/// The step of the hunt after step `i` (counted from one) showed `signal`:
/// the next step while steps are left, none on a secret or after the last.
pub fn next_hunt_step(i: usize, signal: &HuntSignal) -> (r: Option<usize>)
    ensures
        *signal == HuntSignal::Secret ==> r is None,
        *signal != HuntSignal::Secret && i < HUNT_ATTEMPTS ==> r == Some((i + 1) as usize),
        i >= HUNT_ATTEMPTS ==> r is None,
{
    match signal {
        HuntSignal::Secret => None,
        _ => if i < HUNT_ATTEMPTS {
            Some(i + 1)
        } else {
            None
        },
    }
}


/// An overloaded or rate-limited reply is waited on for the seconds of
/// `retry-after` when it reads as a number, else those of
/// `x-ratelimit-reset`, else two, and never less than one; any other reply
/// is taken exactly when its status is a success.
pub proof fn law_retry_wait(status: u16, success: bool, retry_after: Option<Seq<char>>, rate_reset: Option<Seq<char>>)
    ensures
        (status == 503 || status == 429) ==> {
            let hint = match retry_after {
                Some(t) => match parse_u64(t) {
                    Some(w) => Some(w),
                    None => match rate_reset {
                        Some(u) => parse_u64(u),
                        None => None,
                    },
                },
                None => match rate_reset {
                    Some(u) => parse_u64(u),
                    None => None,
                },
            };
            let w: u64 = match hint {
                Some(w) => w,
                None => 2,
            };
            retry_decision_of(status, success, retry_after, rate_reset) == RetryDecision::Throttled { wait: if w == 0 { 1 } else { w } }
        },
        !(status == 503 || status == 429) ==> (retry_decision_of(status, success, retry_after, rate_reset) matches RetryDecision::Proceed { accept, .. }
            && accept == success),
{
}

} // verus!
