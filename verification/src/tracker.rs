//! Requests to the issue tracker.
//!
//! The caller sends them; this module says where to, with which body, and how the answer
//! is to be read.

use crate::completion::is_success;
use crate::json::{json_member, write_member, written_bytes, Field, Json};
use crate::text::{decimal, push_decimal};
use vstd::prelude::*;
use vstd::string::StringExecFns;

verus! {

/// The address of the labels of an issue.
pub open spec fn labels_address(owner: Seq<char>, repo: Seq<char>, issue_number: u64) -> Seq<char> {
    "https://api.github.com/repos/"@ + owner + "/"@ + repo + "/issues/"@ + decimal(
        issue_number as nat,
    ) + "/labels"@
}

/// The message for an answer of the tracker with a status other than success.
pub open spec fn status_failure(status: u16) -> Seq<char> {
    "GitHub HTTP error: StatusCode("@ + decimal(status as nat) + ")"@
}

/// The message for a request to the tracker that failed before any answer came.
pub open spec fn transport_failure(detail: Seq<char>) -> Seq<char> {
    "Error getting response from GitHub: "@ + detail
}

/// Returns the address to which the labels of the issue `issue_number` of the repository
/// `owner`/`repo` are posted.
pub fn labels_url(owner: &str, repo: &str, issue_number: u64) -> (url: String)
    ensures
        url@ == labels_address(owner@, repo@, issue_number),
{
    let mut url = String::from_str("https://api.github.com/repos/");
    url.append(owner);
    url.append("/");
    url.append(repo);
    url.append("/issues/");
    push_decimal(&mut url, issue_number);
    url.append("/labels");
    url
}

/// The list of `labels` as the value of a member.
pub open spec fn labels_value(labels: Seq<Seq<char>>) -> Json {
    Json::Array(labels.map_values(|item: Seq<char>| Json::Text(item)))
}

/// The bytes of the request that adds `labels` to an issue: what `serde_json` writes for
/// the JSON object whose only member, `labels`, is the list of them. `None` if, and only
/// if, it refuses to write that object.
pub fn labels_body(labels: Vec<String>) -> (body: Option<Vec<u8>>)
    ensures
        match body {
            Some(bytes) => json_member("labels"@, labels_value(labels.deep_view())) == Some(
                bytes@,
            ),
            None => json_member("labels"@, labels_value(labels.deep_view())) is None,
        },
{
    written_bytes(write_member("labels", &Field::List(labels)))
}

/// The headers of the request that adds labels: what it accepts, the bearer token `token`,
/// that its body is JSON, what sends it, and the length of its body.
pub open spec fn labels_headers_for(token: Seq<char>, body_len: usize) -> Seq<
    (Seq<char>, Seq<char>),
> {
    seq![
        ("Accept"@, "application/vnd.github+json"@),
        ("Authorization"@, "Bearer "@ + token),
        ("Content-Type"@, "application/json"@),
        ("User-Agent"@, "your-app-name"@),
        ("Content-Length"@, decimal(body_len as nat)),
    ]
}

/// Returns the headers of the request that adds labels, authorized by `token` and with a
/// body of `body_len` bytes, each as a name and a value, in the order in which they are sent.
pub fn labels_headers(token: &str, body_len: usize) -> (headers: Vec<(String, String)>)
    ensures
        headers.deep_view() == labels_headers_for(token@, body_len),
{
    let mut bearer = String::from_str("Bearer ");
    bearer.append(token);
    let mut length = String::new();
    push_decimal(&mut length, body_len as u64);
    let mut headers: Vec<(String, String)> = Vec::new();
    headers.push((String::from_str("Accept"), String::from_str("application/vnd.github+json")));
    headers.push((String::from_str("Authorization"), bearer));
    headers.push((String::from_str("Content-Type"), String::from_str("application/json")));
    headers.push((String::from_str("User-Agent"), String::from_str("your-app-name")));
    headers.push((String::from_str("Content-Length"), length));
    proof {
        assert(headers.deep_view() =~= labels_headers_for(token@, body_len));
    }
    headers
}

/// Reads the tracker's answer: the body `body` if `status` reports success, else the
/// message that names the status.
pub fn read_answer(status: u16, body: Vec<u8>) -> (answer: Result<Vec<u8>, String>)
    ensures
        match answer {
            Ok(bytes) => is_success(status) && bytes == body,
            Err(message) => !is_success(status) && message@ == status_failure(status),
        },
{
    if 200 <= status && status <= 299 {
        Ok(body)
    } else {
        let mut message = String::from_str("GitHub HTTP error: StatusCode(");
        push_decimal(&mut message, status as u64);
        message.append(")");
        Err(message)
    }
}

/// Returns the message for a request to the tracker that failed with `detail` before any
/// answer came.
pub fn request_failed(detail: &str) -> (message: String)
    ensures
        message@ == transport_failure(detail@),
{
    let mut message = String::from_str("Error getting response from GitHub: ");
    message.append(detail);
    message
}

} // verus!
