use issue_labeler::tracker::{
    labels_body, labels_headers, labels_url, read_answer, request_failed,
};

#[test]
fn labels_url_names_repository_and_issue() {
    assert_eq!(
        labels_url("wasmedge", "wasmedge", 3210),
        "https://api.github.com/repos/wasmedge/wasmedge/issues/3210/labels"
    );
    assert_eq!(labels_url("", "", 0), "https://api.github.com/repos///issues/0/labels");
}

#[test]
fn labels_body_is_a_json_object_with_the_list() {
    let labels = vec!["bug".to_string(), "good first issue".to_string(), "a\"b".to_string()];
    assert_eq!(
        labels_body(labels),
        Some(b"{\"labels\":[\"bug\",\"good first issue\",\"a\\\"b\"]}".to_vec())
    );
    assert_eq!(labels_body(Vec::new()), Some(b"{\"labels\":[]}".to_vec()));
}

#[test]
fn read_answer_passes_the_body_of_a_success() {
    assert_eq!(read_answer(200, b"[]".to_vec()), Ok(b"[]".to_vec()));
    assert_eq!(read_answer(299, Vec::new()), Ok(Vec::new()));
}

#[test]
fn read_answer_names_any_other_status() {
    assert_eq!(
        read_answer(404, b"{}".to_vec()),
        Err("GitHub HTTP error: StatusCode(404)".to_string())
    );
    assert_eq!(read_answer(300, Vec::new()), Err("GitHub HTTP error: StatusCode(300)".to_string()));
    assert_eq!(read_answer(199, Vec::new()), Err("GitHub HTTP error: StatusCode(199)".to_string()));
}

#[test]
fn request_failed_carries_the_detail() {
    assert_eq!(request_failed("timed out"), "Error getting response from GitHub: timed out");
}

#[test]
fn labels_headers_in_order() {
    let pair = |name: &str, value: &str| (name.to_string(), value.to_string());
    assert_eq!(
        labels_headers("t0k3n", 27),
        vec![
            pair("Accept", "application/vnd.github+json"),
            pair("Authorization", "Bearer t0k3n"),
            pair("Content-Type", "application/json"),
            pair("User-Agent", "your-app-name"),
            pair("Content-Length", "27"),
        ]
    );
}
