use issue_labeler::json::written_bytes;
use issue_labeler::completion::{
    decode_completion, decode_failure, first_text, judge, read_records, record_of, records_in,
    request_body, request_headers,
    CompletionError, ErrorKind, GeneratedResponse, Outcome, RetryPolicy, Verdict,
};

const DECODE: &str = "the response body is not a completion or a list of completions";
const NO_CHOICES: &str = "the response body is an empty list";

fn failure(kind: ErrorKind, message: &str) -> CompletionError {
    CompletionError { kind, message: message.to_string() }
}

fn response(status: u16, body: &str) -> Outcome {
    Outcome::Response { status, body: body.as_bytes().to_vec() }
}

/// Makes the attempts that the verdicts ask for, taking the outcome of each from
/// `outcomes`, and returns the result with the number of attempts made and seconds waited.
fn run(policy: &RetryPolicy, outcomes: Vec<Outcome>) -> (Result<String, CompletionError>, u32, u64) {
    let mut attempt = 1;
    let mut made = 0;
    let mut waited = 0;
    for outcome in outcomes {
        made += 1;
        match judge(policy, attempt, &outcome) {
            Verdict::Retry { attempt: next, after_seconds } => {
                attempt = next;
                waited += after_seconds;
            }
            Verdict::Done(result) => return (result, made, waited),
        }
    }
    panic!("the outcomes ran out before the call was done");
}

#[test]
fn request_body_is_a_json_object_with_the_prompt() {
    assert_eq!(request_body("hi"), Some(b"{\"inputs\":\"hi\"}".to_vec()));
    assert_eq!(request_body(""), Some(b"{\"inputs\":\"\"}".to_vec()));
}

#[test]
fn request_body_escapes_the_prompt() {
    let body = request_body("say \"hi\"\n### Response:").unwrap();
    assert_eq!(body, b"{\"inputs\":\"say \\\"hi\\\"\\n### Response:\"}".to_vec());
    let value: serde_json::Value = serde_json::from_slice(&body).unwrap();
    assert_eq!(value["inputs"], "say \"hi\"\n### Response:");
}

#[test]
fn decode_single_record() {
    assert_eq!(decode_completion(b"{\"generated_text\":\"`bug`\"}"), Ok("`bug`".to_string()));
    assert_eq!(
        decode_completion(b" { \"other\": 1, \"generated_text\": \"a\\nb\" } "),
        Ok("a\nb".to_string())
    );
}

#[test]
fn decode_list_takes_the_first_record() {
    assert_eq!(
        decode_completion(b"[{\"generated_text\":\"one\"},{\"generated_text\":\"two\"}]"),
        Ok("one".to_string())
    );
    assert_eq!(decode_completion(b"[{\"generated_text\":\"\"}]"), Ok(String::new()));
}

#[test]
fn decode_empty_list_is_no_choices() {
    assert_eq!(decode_completion(b"[]"), Err(failure(ErrorKind::NoChoices, NO_CHOICES)));
    assert_eq!(decode_completion(b" [ ] "), Err(failure(ErrorKind::NoChoices, NO_CHOICES)));
}

#[test]
fn decode_rejects_other_shapes() {
    let bodies: [&[u8]; 9] = [
        b"{}",
        b"{\"generated_text\":1}",
        b"{\"generated_text\":null}",
        b"{\"Generated_Text\":\"a\"}",
        b"\"text\"",
        b"null",
        b"[\"text\"]",
        b"[{\"generated_text\":\"one\"},{\"text\":\"two\"}]",
        b"[[{\"generated_text\":\"one\"}]]",
    ];
    for body in bodies {
        assert_eq!(decode_completion(body), Err(failure(ErrorKind::Decode, DECODE)));
    }
}

#[test]
fn decode_passes_on_the_reason_for_a_body_that_is_no_json() {
    assert_eq!(
        decode_completion(b""),
        Err(failure(ErrorKind::Decode, "EOF while parsing a value at line 1 column 0"))
    );
    assert_eq!(
        decode_completion(b"not json"),
        Err(failure(ErrorKind::Decode, "expected ident at line 1 column 2"))
    );
    assert_eq!(
        decode_completion(b"{\"generated_text\":\"a\"} trailing"),
        Err(failure(ErrorKind::Decode, "trailing characters at line 1 column 24"))
    );
    let bodies: [&[u8]; 4] = [b"<html>", b"{\"generated_text\":", b"[1,", b"\xff"];
    for body in bodies {
        let reason = serde_json::from_slice::<serde_json::Value>(body).unwrap_err().to_string();
        assert_eq!(decode_completion(body), Err(failure(ErrorKind::Decode, &reason)));
        assert_eq!(read_records(body), Err(failure(ErrorKind::Decode, &reason)));
    }
}

#[test]
fn read_records_gives_every_record() {
    assert_eq!(
        read_records(b"[{\"generated_text\":\"one\"},{\"generated_text\":\"two\"}]"),
        Ok(vec![
            GeneratedResponse { generated_text: "one".to_string() },
            GeneratedResponse { generated_text: "two".to_string() },
        ])
    );
    assert_eq!(
        read_records(b"{\"generated_text\":\"one\"}"),
        Ok(vec![GeneratedResponse { generated_text: "one".to_string() }])
    );
    assert_eq!(read_records(b"[]"), Ok(Vec::new()));
    assert_eq!(read_records(b"[1]"), Err(failure(ErrorKind::Decode, DECODE)));
    assert_eq!(decode_failure(), failure(ErrorKind::Decode, DECODE));
}

#[test]
fn record_of_reads_the_generated_text_member() {
    let value: serde_json::Value =
        serde_json::from_str("{\"generated_text\":\"x\",\"n\":[1,2]}").unwrap();
    assert_eq!(record_of(&value), Some(GeneratedResponse { generated_text: "x".to_string() }));
    let value: serde_json::Value = serde_json::from_str("[\"generated_text\"]").unwrap();
    assert_eq!(record_of(&value), None);
    let value: serde_json::Value = serde_json::from_str("{\"generated_text\":[\"x\"]}").unwrap();
    assert_eq!(record_of(&value), None);
}

#[test]
fn first_text_of_records() {
    let records = vec![
        GeneratedResponse { generated_text: "one".to_string() },
        GeneratedResponse { generated_text: "two".to_string() },
        GeneratedResponse { generated_text: "three".to_string() },
    ];
    assert_eq!(first_text(records), Ok("one".to_string()));
    assert_eq!(first_text(Vec::new()), Err(failure(ErrorKind::NoChoices, NO_CHOICES)));
}

#[test]
fn reference_policy_is_two_attempts_forty_seconds_apart() {
    assert_eq!(RetryPolicy::reference(), RetryPolicy { max_attempts: 2, backoff_seconds: 40 });
}

#[test]
fn client_recovers_on_second_attempt() {
    let policy = RetryPolicy::reference();
    let outcomes = vec![
        response(500, "oops"),
        response(200, "{\"generated_text\":\"### Response:\\n`bug`\"}"),
    ];
    let (result, made, waited) = run(&policy, outcomes);
    assert_eq!(result, Ok("### Response:\n`bug`".to_string()));
    assert_eq!(made, 2);
    assert_eq!(waited, 40);
}

#[test]
fn client_gives_up_when_every_attempt_fails() {
    let policy = RetryPolicy::reference();
    let outcomes = vec![
        response(500, "{\"generated_text\":\"partial\"}"),
        response(500, "{\"generated_text\":\"partial\"}"),
        response(200, "{\"generated_text\":\"too late\"}"),
    ];
    let (result, made, waited) = run(&policy, outcomes);
    assert_eq!(result, Err(failure(ErrorKind::HttpStatus, "HTTP error with status 500")));
    assert_eq!(made, 2);
    assert_eq!(waited, 40);
}

#[test]
fn client_succeeds_at_once() {
    let policy = RetryPolicy::reference();
    let (result, made, waited) = run(&policy, vec![response(200, "[{\"generated_text\":\"a\"}]")]);
    assert_eq!(result, Ok("a".to_string()));
    assert_eq!(made, 1);
    assert_eq!(waited, 0);
}

#[test]
fn client_retries_transport_failures_then_surfaces_them() {
    let policy = RetryPolicy { max_attempts: 3, backoff_seconds: 5 };
    let lost = || Outcome::Failure { message: "connection refused".to_string() };
    let (result, made, waited) = run(&policy, vec![lost(), lost(), lost()]);
    assert_eq!(
        result,
        Err(failure(ErrorKind::Transport, "Error getting response from API: connection refused"))
    );
    assert_eq!(made, 3);
    assert_eq!(waited, 10);
    let (result, made, _) = run(&policy, vec![lost(), response(404, ""), response(200, "[]")]);
    assert_eq!(result, Err(failure(ErrorKind::NoChoices, NO_CHOICES)));
    assert_eq!(made, 3);
}

#[test]
fn client_does_not_retry_a_malformed_body() {
    let policy = RetryPolicy::reference();
    let outcomes = vec![response(200, "<html>"), response(200, "{\"generated_text\":\"a\"}")];
    let (result, made, waited) = run(&policy, outcomes);
    assert_eq!(
        result,
        Err(failure(ErrorKind::Decode, "expected value at line 1 column 1"))
    );
    assert_eq!(made, 1);
    assert_eq!(waited, 0);
}

#[test]
fn judge_counts_attempts_from_one() {
    let policy = RetryPolicy { max_attempts: 2, backoff_seconds: 40 };
    assert_eq!(
        judge(&policy, 1, &response(503, "")),
        Verdict::Retry { attempt: 2, after_seconds: 40 }
    );
    assert_eq!(
        judge(&policy, 2, &response(503, "")),
        Verdict::Done(Err(failure(ErrorKind::HttpStatus, "HTTP error with status 503")))
    );
    assert_eq!(
        judge(&policy, 7, &response(503, "")),
        Verdict::Done(Err(failure(ErrorKind::HttpStatus, "HTTP error with status 503")))
    );
}

#[test]
fn judge_makes_one_attempt_when_the_policy_allows_none() {
    let policy = RetryPolicy { max_attempts: 0, backoff_seconds: 1 };
    assert_eq!(
        judge(&policy, 1, &response(500, "")),
        Verdict::Done(Err(failure(ErrorKind::HttpStatus, "HTTP error with status 500")))
    );
    let policy = RetryPolicy { max_attempts: 1, backoff_seconds: 1 };
    assert_eq!(
        judge(&policy, 1, &Outcome::Failure { message: String::new() }),
        Verdict::Done(Err(failure(ErrorKind::Transport, "Error getting response from API: ")))
    );
}

#[test]
fn judge_success_is_status_200_to_299() {
    let policy = RetryPolicy { max_attempts: 1, backoff_seconds: 0 };
    let body = "{\"generated_text\":\"a\"}";
    assert_eq!(judge(&policy, 1, &response(200, body)), Verdict::Done(Ok("a".to_string())));
    assert_eq!(judge(&policy, 1, &response(204, body)), Verdict::Done(Ok("a".to_string())));
    assert_eq!(judge(&policy, 1, &response(299, body)), Verdict::Done(Ok("a".to_string())));
    assert_eq!(
        judge(&policy, 1, &response(199, body)),
        Verdict::Done(Err(failure(ErrorKind::HttpStatus, "HTTP error with status 199")))
    );
    assert_eq!(
        judge(&policy, 1, &response(300, body)),
        Verdict::Done(Err(failure(ErrorKind::HttpStatus, "HTTP error with status 300")))
    );
    assert_eq!(
        judge(&policy, 1, &response(0, body)),
        Verdict::Done(Err(failure(ErrorKind::HttpStatus, "HTTP error with status 0")))
    );
    assert_eq!(
        judge(&policy, 1, &response(65535, body)),
        Verdict::Done(Err(failure(ErrorKind::HttpStatus, "HTTP error with status 65535")))
    );
}

#[test]
fn records_in_a_value() {
    let value: serde_json::Value =
        serde_json::from_str("[{\"generated_text\":\"a\"},{\"generated_text\":\"b\",\"x\":null}]")
            .unwrap();
    assert_eq!(
        records_in(&value),
        Ok(vec![
            GeneratedResponse { generated_text: "a".to_string() },
            GeneratedResponse { generated_text: "b".to_string() },
        ])
    );
    let value: serde_json::Value = serde_json::from_str("{\"generated_text\":\"a\"}").unwrap();
    assert_eq!(records_in(&value), Ok(vec![GeneratedResponse { generated_text: "a".to_string() }]));
    let value: serde_json::Value = serde_json::from_str("[]").unwrap();
    assert_eq!(records_in(&value), Ok(Vec::new()));
    for text in ["[{\"generated_text\":\"a\"},7]", "7", "true", "{\"generated_text\":{}}"] {
        let value: serde_json::Value = serde_json::from_str(text).unwrap();
        assert_eq!(records_in(&value), Err(failure(ErrorKind::Decode, DECODE)));
    }
}

#[test]
fn request_headers_in_order() {
    let pair = |name: &str, value: &str| (name.to_string(), value.to_string());
    assert_eq!(
        request_headers("secret", 1024),
        vec![
            pair("User-Agent", "curl/8.4.0"),
            pair("Accept", "*/*"),
            pair("Content-Type", "application/json"),
            pair("Authorization", "Bearer secret"),
            pair("Content-Length", "1024"),
        ]
    );
    assert_eq!(request_headers("", 0)[3], pair("Authorization", "Bearer "));
    assert_eq!(request_headers("", 0)[4], pair("Content-Length", "0"));
}

#[test]
fn written_bytes_of_a_result() {
    assert_eq!(written_bytes(Ok(vec![1, 2, 3])), Some(vec![1, 2, 3]));
    assert_eq!(written_bytes(Ok(Vec::new())), Some(Vec::new()));
    let refused = serde_json::from_str::<serde_json::Value>("{").unwrap_err();
    assert_eq!(written_bytes(Err(refused)), None);
}
