//! The completion client's rules.
//!
//! The client sends one prompt to one endpoint and hands back the completion's text or a
//! definite failure. Sending and waiting are the caller's part; this module holds what is
//! decided in between: the bytes of the request, what to do after each attempt, and what a
//! response body says.
//!
//! An attempt ends in an `Outcome`. `judge` turns the number of the attempt and its outcome
//! into a `Verdict`: wait and try again, or finish with a result. The caller sends, calls
//! `judge`, and does what the verdict says until it is `Done`.

use crate::json::{
    json_member, json_of, json_of_each, json_read, member, read_value, write_member,
    written_bytes, Field, Json,
};
use crate::text::{decimal, push_decimal};
use vstd::prelude::*;
use vstd::string::StringExecFns;

verus! {

/// Why a call of the client failed.
#[derive(Debug, Clone, Copy, PartialEq, Eq)]
pub enum ErrorKind {
    /// No response came: the request itself failed.
    Transport,
    /// The endpoint answered with a status other than success.
    HttpStatus,
    /// The body of a successful response is not of an accepted shape.
    Decode,
    /// The body of a successful response is an empty list.
    NoChoices,
}

/// A definite failure of a call of the client.
#[derive(Debug, PartialEq, Eq)]
pub struct CompletionError {
    pub kind: ErrorKind,
    pub message: String,
}

/// What a call of the client gives: the completion's text, or a definite failure.
pub type CompletionResult = Result<String, CompletionError>;

/// One completion, as the endpoint reports it.
#[derive(Debug, PartialEq, Eq)]
pub struct GeneratedResponse {
    pub generated_text: String,
}

/// How often the client tries and how long it waits in between.
#[derive(Debug, Clone, Copy, PartialEq, Eq)]
pub struct RetryPolicy {
    /// The most attempts that one call makes. A call makes at least one.
    pub max_attempts: u32,
    /// The seconds to wait after a failed attempt, before the next one.
    pub backoff_seconds: u64,
}

/// How an attempt ended.
#[derive(Debug, PartialEq, Eq)]
pub enum Outcome {
    /// The endpoint answered.
    Response { status: u16, body: Vec<u8> },
    /// The request failed before any answer came.
    Failure { message: String },
}

/// What the caller is to do after an attempt.
#[derive(Debug, PartialEq, Eq)]
pub enum Verdict {
    /// Wait `after_seconds`, then make the attempt with the number `attempt`.
    Retry { attempt: u32, after_seconds: u64 },
    /// Stop: this is the result of the call.
    Done(CompletionResult),
}

/// A verdict as a mathematical value.
pub enum Ruling {
    Retry { attempt: int, after_seconds: int },
    Text(Seq<char>),
    Failed(ErrorKind, Seq<char>),
}

/// The name of the member of the request that holds the prompt.
pub open spec fn prompt_key() -> Seq<char> {
    "inputs"@
}

/// The name of the member of a response that holds the completion.
pub open spec fn text_key() -> Seq<char> {
    "generated_text"@
}

/// The message of a failure of kind `Decode` for a JSON document of no accepted shape.
pub open spec fn decode_message() -> Seq<char> {
    "the response body is not a completion or a list of completions"@
}

/// The message of a failure of kind `NoChoices`.
pub open spec fn no_choices_message() -> Seq<char> {
    "the response body is an empty list"@
}

/// The message of a failure of kind `HttpStatus`.
pub open spec fn status_message(status: u16) -> Seq<char> {
    "HTTP error with status "@ + decimal(status as nat)
}

/// The message of a failure of kind `Transport`.
pub open spec fn transport_message(detail: Seq<char>) -> Seq<char> {
    "Error getting response from API: "@ + detail
}

/// Whether `status` reports success.
pub open spec fn is_success(status: u16) -> bool {
    200 <= status <= 299
}

/// The completion that `doc` reports, if `doc` is an object with a string member
/// `generated_text`.
pub open spec fn record_text(doc: Json) -> Option<Seq<char>> {
    match doc {
        Json::Object(members) => if members.contains_key(text_key()) {
            match members[text_key()] {
                Json::Text(text) => Some(text),
                _ => None,
            }
        } else {
            None
        },
        _ => None,
    }
}

/// The completions that `doc` reports: that of a single record, or those of a list of
/// records. `None` if `doc` is neither.
pub open spec fn record_texts(doc: Json) -> Option<Seq<Seq<char>>> {
    match doc {
        Json::Array(items) => if forall|i: int|
            0 <= i < items.len() ==> record_text(#[trigger] items[i]) is Some {
            Some(items.map_values(|item: Json| record_text(item)->0))
        } else {
            None
        },
        _ => match record_text(doc) {
            Some(text) => Some(seq![text]),
            None => None,
        },
    }
}

/// The completions that the bytes `body` report, or the kind and the message of the
/// failure that they give: the reason of `serde_json` where they are no JSON document, a
/// fixed text where the document is of no accepted shape.
pub open spec fn read_texts(body: Seq<u8>) -> Result<Seq<Seq<char>>, (ErrorKind, Seq<char>)> {
    match json_read(body) {
        Ok(doc) => match record_texts(doc) {
            Some(texts) => Ok(texts),
            None => Err((ErrorKind::Decode, decode_message())),
        },
        Err(reason) => Err((ErrorKind::Decode, reason)),
    }
}

/// The first of `texts`, or the kind and the message of the failure that their absence
/// gives.
pub open spec fn first_of(texts: Seq<Seq<char>>) -> Result<Seq<char>, (ErrorKind, Seq<char>)> {
    if texts.len() == 0 {
        Err((ErrorKind::NoChoices, no_choices_message()))
    } else {
        Ok(texts[0])
    }
}

/// The completion that the bytes `body` report, or the kind and the message of the failure
/// that they give.
pub open spec fn decoded(body: Seq<u8>) -> Result<Seq<char>, (ErrorKind, Seq<char>)> {
    match read_texts(body) {
        Ok(texts) => first_of(texts),
        Err(failure) => Err(failure),
    }
}

/// The text of each of `records`.
pub open spec fn texts_of(records: Seq<GeneratedResponse>) -> Seq<Seq<char>> {
    records.map_values(|record: GeneratedResponse| record.generated_text@)
}

/// The bytes of the request for `prompt`: what `serde_json` writes for the JSON object
/// whose only member, `inputs`, is the prompt. `None` if, and only if, it refuses to write
/// that object.
pub fn request_body(prompt: &str) -> (body: Option<Vec<u8>>)
    ensures
        match body {
            Some(bytes) => json_member(prompt_key(), Json::Text(prompt@)) == Some(bytes@),
            None => json_member(prompt_key(), Json::Text(prompt@)) is None,
        },
{
    written_bytes(write_member("inputs", &Field::Text(String::from_str(prompt))))
}

/// The headers of the request: what sends it, what it accepts, that its body is JSON, the
/// bearer token `api_key`, and the length of its body.
pub open spec fn headers_for(api_key: Seq<char>, body_len: usize) -> Seq<(Seq<char>, Seq<char>)> {
    seq![
        ("User-Agent"@, "curl/8.4.0"@),
        ("Accept"@, "*/*"@),
        ("Content-Type"@, "application/json"@),
        ("Authorization"@, "Bearer "@ + api_key),
        ("Content-Length"@, decimal(body_len as nat)),
    ]
}

/// Returns the headers of the request that is authorized by `api_key` and has a body of
/// `body_len` bytes, each as a name and a value, in the order in which they are sent.
pub fn request_headers(api_key: &str, body_len: usize) -> (headers: Vec<(String, String)>)
    ensures
        headers.deep_view() == headers_for(api_key@, body_len),
{
    let mut bearer = String::from_str("Bearer ");
    bearer.append(api_key);
    let mut length = String::new();
    push_decimal(&mut length, body_len as u64);
    let mut headers: Vec<(String, String)> = Vec::new();
    headers.push((String::from_str("User-Agent"), String::from_str("curl/8.4.0")));
    headers.push((String::from_str("Accept"), String::from_str("*/*")));
    headers.push((String::from_str("Content-Type"), String::from_str("application/json")));
    headers.push((String::from_str("Authorization"), bearer));
    headers.push((String::from_str("Content-Length"), length));
    proof {
        assert(headers.deep_view() =~= headers_for(api_key@, body_len));
    }
    headers
}

/// The record that `value` holds, if it is an object with a string member `generated_text`.
pub fn record_of(value: &serde_json::Value) -> (record: Option<GeneratedResponse>)
    ensures
        match record {
            Some(r) => record_text(json_of(*value)) == Some(r.generated_text@),
            None => record_text(json_of(*value)) is None,
        },
{
    match member(value, "generated_text") {
        Some(inner) => match inner.as_str() {
            Some(text) => Some(GeneratedResponse { generated_text: String::from_str(text) }),
            None => None,
        },
        None => None,
    }
}

/// The records that `value` holds: the single record that it is, or those of the list that
/// it is. Fails with kind `Decode` if it is neither.
pub fn records_in(value: &serde_json::Value) -> (found: Result<
    Vec<GeneratedResponse>,
    CompletionError,
>)
    ensures
        match found {
            Ok(records) => record_texts(json_of(*value)) == Some(texts_of(records@)),
            Err(e) => record_texts(json_of(*value)) is None && e.kind == ErrorKind::Decode
                && e.message@ == decode_message(),
        },
{
    let mut records: Vec<GeneratedResponse> = Vec::new();
    match value.as_array() {
        Some(items) => {
            let ghost docs = json_of_each(items@);
            let mut i: usize = 0;
            while i < items.len()
                invariant
                    i <= items.len(),
                    docs == json_of_each(items@),
                    json_of(*value) == Json::Array(docs),
                    records@.len() == i,
                    forall|k: int|
                        0 <= k < i ==> record_text(#[trigger] docs[k]) == Some(
                            records@[k].generated_text@,
                        ),
                decreases items.len() - i,
            {
                match record_of(&items[i]) {
                    Some(record) => {
                        records.push(record);
                    },
                    None => {
                        assert(record_text(docs[i as int]) is None);
                        return Err(decode_failure());
                    },
                }
                i = i + 1;
            }
            proof {
                assert(texts_of(records@) =~= docs.map_values(|item: Json| record_text(item)->0));
            }
            Ok(records)
        },
        None => match record_of(value) {
            Some(record) => {
                records.push(record);
                proof {
                    assert(texts_of(records@) =~= seq![record.generated_text@]);
                }
                Ok(records)
            },
            None => Err(decode_failure()),
        },
    }
}

/// Reads `body` as one record or a list of records. Fails with kind `Decode` if it is not
/// JSON, with the reason that `serde_json` gives as its message, or if it is neither of the
/// two.
pub fn read_records(body: &[u8]) -> (read: Result<Vec<GeneratedResponse>, CompletionError>)
    ensures
        match read {
            Ok(records) => read_texts(body@) == Ok::<Seq<Seq<char>>, (ErrorKind, Seq<char>)>(
                texts_of(records@),
            ),
            Err(e) => read_texts(body@) == Err::<Seq<Seq<char>>, (ErrorKind, Seq<char>)>(
                (e.kind, e.message@),
            ),
        },
{
    match read_value(body) {
        Ok(value) => records_in(&value),
        Err(reason) => Err(CompletionError { kind: ErrorKind::Decode, message: reason }),
    }
}

/// The failure of kind `Decode` for a JSON document of no accepted shape.
pub fn decode_failure() -> (e: CompletionError)
    ensures
        e.kind == ErrorKind::Decode,
        e.message@ == decode_message(),
{
    CompletionError {
        kind: ErrorKind::Decode,
        message: String::from_str(
            "the response body is not a completion or a list of completions",
        ),
    }
}

/// The text of the first of `records`. Fails with kind `NoChoices` if there is none.
pub fn first_text(records: Vec<GeneratedResponse>) -> (first: CompletionResult)
    ensures
        match first {
            Ok(text) => first_of(texts_of(records@)) == Ok::<Seq<char>, (ErrorKind, Seq<char>)>(
                text@,
            ),
            Err(e) => first_of(texts_of(records@)) == Err::<Seq<char>, (ErrorKind, Seq<char>)>(
                (e.kind, e.message@),
            ),
        },
{
    let mut records = records;
    if records.len() == 0 {
        Err(
            CompletionError {
                kind: ErrorKind::NoChoices,
                message: String::from_str("the response body is an empty list"),
            },
        )
    } else {
        let record = records.swap_remove(0);
        Ok(record.generated_text)
    }
}

/// Decodes the body of a successful response: the text of the single record that it holds,
/// or of the first record of the list that it holds. Fails with kind `Decode` if the body is
/// of neither shape, and with kind `NoChoices` if it is an empty list. Where the body is no
/// JSON at all, the message of the failure is the reason that `serde_json` gives.
pub fn decode_completion(body: &[u8]) -> (text: CompletionResult)
    ensures
        match text {
            Ok(t) => decoded(body@) == Ok::<Seq<char>, (ErrorKind, Seq<char>)>(t@),
            Err(e) => decoded(body@) == Err::<Seq<char>, (ErrorKind, Seq<char>)>(
                (e.kind, e.message@),
            ),
        },
{
    match read_records(body) {
        Ok(records) => first_text(records),
        Err(e) => Err(e),
    }
}

impl View for Verdict {
    type V = Ruling;

    open spec fn view(&self) -> Ruling {
        match *self {
            Verdict::Retry { attempt, after_seconds } => Ruling::Retry {
                attempt: attempt as int,
                after_seconds: after_seconds as int,
            },
            Verdict::Done(Ok(text)) => Ruling::Text(text@),
            Verdict::Done(Err(e)) => Ruling::Failed(e.kind, e.message@),
        }
    }
}

impl RetryPolicy {
    /// The policy of the reference deployment: two attempts, forty seconds apart.
    pub fn reference() -> (policy: RetryPolicy)
        ensures
            policy.max_attempts == 2,
            policy.backoff_seconds == 40,
    {
        RetryPolicy { max_attempts: 2, backoff_seconds: 40 }
    }
}

/// What follows the attempt with the number `attempt`, which ended in `outcome`.
///
/// A response with a success status ends the call: with the completion that its body
/// reports, or with the failure that decoding gives, which no further attempt could mend.
/// Any other response, and a request that failed, is tried again after the backoff as long
/// as `attempt` is below the policy's maximum, and ends the call in a failure after that.
pub open spec fn ruling(policy: RetryPolicy, attempt: u32, outcome: Outcome) -> Ruling {
    match outcome {
        Outcome::Response { status, body } => if is_success(status) {
            match decoded(body@) {
                Ok(text) => Ruling::Text(text),
                Err(failure) => Ruling::Failed(failure.0, failure.1),
            }
        } else if attempt < policy.max_attempts {
            Ruling::Retry { attempt: attempt + 1, after_seconds: policy.backoff_seconds as int }
        } else {
            Ruling::Failed(ErrorKind::HttpStatus, status_message(status))
        },
        Outcome::Failure { message } => if attempt < policy.max_attempts {
            Ruling::Retry { attempt: attempt + 1, after_seconds: policy.backoff_seconds as int }
        } else {
            Ruling::Failed(ErrorKind::Transport, transport_message(message@))
        },
    }
}

/// Says what the caller is to do after the attempt with the number `attempt`, counted from
/// 1, has ended in `outcome`.
pub fn judge(policy: &RetryPolicy, attempt: u32, outcome: &Outcome) -> (verdict: Verdict)
    ensures
        verdict@ == ruling(*policy, attempt, *outcome),
{
    match outcome {
        Outcome::Response { status, body } => {
            if 200 <= *status && *status <= 299 {
                Verdict::Done(decode_completion(body.as_slice()))
            } else if attempt < policy.max_attempts {
                Verdict::Retry { attempt: attempt + 1, after_seconds: policy.backoff_seconds }
            } else {
                let mut message = String::from_str("HTTP error with status ");
                push_decimal(&mut message, *status as u64);
                Verdict::Done(Err(CompletionError { kind: ErrorKind::HttpStatus, message }))
            }
        },
        Outcome::Failure { message } => {
            if attempt < policy.max_attempts {
                Verdict::Retry { attempt: attempt + 1, after_seconds: policy.backoff_seconds }
            } else {
                let mut text = String::from_str("Error getting response from API: ");
                text.append(message.as_str());
                Verdict::Done(Err(CompletionError { kind: ErrorKind::Transport, message: text }))
            }
        },
    }
}

/// How a call ends whose attempts, from the one with the number `attempt` on, end in
/// `outcomes`, in order: the first ruling that is not to try again. `None` if the outcomes
/// run out before that.
pub open spec fn course(policy: RetryPolicy, attempt: u32, outcomes: Seq<Outcome>) -> Option<
    Ruling,
>
    decreases outcomes.len(),
{
    if outcomes.len() == 0 {
        None
    } else {
        match ruling(policy, attempt, outcomes.first()) {
            Ruling::Retry { attempt: next, after_seconds } => course(
                policy,
                next as u32,
                outcomes.drop_first(),
            ),
            last => Some(last),
        }
    }
}

/// The number of attempts that a call makes whose attempts, from the one with the number
/// `attempt` on, end in `outcomes`, in order.
pub open spec fn attempts_made(policy: RetryPolicy, attempt: u32, outcomes: Seq<Outcome>) -> nat
    decreases outcomes.len(),
{
    if outcomes.len() == 0 {
        0
    } else {
        match ruling(policy, attempt, outcomes.first()) {
            Ruling::Retry { attempt: next, after_seconds } => 1 + attempts_made(
                policy,
                next as u32,
                outcomes.drop_first(),
            ),
            last => 1,
        }
    }
}

/// A call ends within its budget: it never makes an attempt with a number above the
/// policy's maximum, unless it starts there, and once the outcomes reach to that attempt
/// the call has ended. A call that starts with the first attempt therefore makes at most
/// `max_attempts` attempts, or one if the maximum is zero.
pub proof fn lemma_budget(policy: RetryPolicy, attempt: u32, outcomes: Seq<Outcome>)
    requires
        attempt >= 1,
    ensures
        attempts_made(policy, attempt, outcomes) <= outcomes.len(),
        attempt <= policy.max_attempts ==> attempt + attempts_made(policy, attempt, outcomes)
            <= policy.max_attempts + 1,
        attempt > policy.max_attempts ==> attempts_made(policy, attempt, outcomes) <= 1,
        outcomes.len() > 0 && attempt + outcomes.len() > policy.max_attempts ==> course(
            policy,
            attempt,
            outcomes,
        ) is Some,
    decreases outcomes.len(),
{
    if outcomes.len() > 0 {
        match ruling(policy, attempt, outcomes.first()) {
            Ruling::Retry { attempt: next, after_seconds } => {
                lemma_budget(policy, next as u32, outcomes.drop_first());
            },
            _ => {},
        }
    }
}

} // verus!
