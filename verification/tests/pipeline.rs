use issue_labeler::extract::extract_candidates;
use issue_labeler::locate::locate_answer;
use issue_labeler::normalize::normalize;
use issue_labeler::pipeline::parse_labels_from_response;
use issue_labeler::prompt::build_prompt;
use issue_labeler::taxonomy::Taxonomy;

fn texts(items: &[&str]) -> Vec<String> {
    items.iter().map(|s| s.to_string()).collect()
}

fn small_taxonomy() -> Taxonomy {
    Taxonomy::new(texts(&["question", "bug", "documentation", "c-CLI", "c-WASI", "c-WASI-NN"]))
        .unwrap()
}

#[test]
fn end_to_end_with_marker_gives_canonical_labels() {
    let taxonomy = small_taxonomy();
    let raw = "...### Response:\n`bug, c-CLI`";
    let answer = locate_answer(raw).unwrap();
    assert_eq!(answer, "`bug, c-CLI`");
    let candidates = extract_candidates(&answer);
    assert_eq!(candidates, texts(&["bug", "c-CLI"]));
    let labels = normalize(&candidates, &taxonomy);
    assert_eq!(labels, texts(&["bug", "c-CLI"]));
    assert_eq!(parse_labels_from_response(raw, &taxonomy), texts(&["bug", "c-CLI"]));
}

#[test]
fn end_to_end_without_marker_gives_no_labels() {
    let taxonomy = small_taxonomy();
    let raw = "The labels are `bug, c-CLI`";
    assert!(locate_answer(raw).is_err());
    assert_eq!(parse_labels_from_response(raw, &taxonomy), Vec::<String>::new());
}

#[test]
fn end_to_end_reconciles_casing_and_keeps_new_labels() {
    let taxonomy = small_taxonomy();
    let raw = "### Response:\nSure: `BUG, c-cli` and also `Needs-Triage`, `bug`.";
    assert_eq!(
        parse_labels_from_response(raw, &taxonomy),
        texts(&["bug", "c-CLI", "needs-triage"])
    );
}

#[test]
fn end_to_end_answer_without_candidates_gives_no_labels() {
    let taxonomy = small_taxonomy();
    assert_eq!(
        parse_labels_from_response("### Response: bug, c-CLI", &taxonomy),
        Vec::<String>::new()
    );
}

#[test]
fn end_to_end_on_an_echoed_prompt() {
    let taxonomy = small_taxonomy();
    let prompt = build_prompt("Crash", "alice", &Some("it crashes".to_string()));
    let raw = format!("{}\n`c-wasi-nn, Question`", prompt);
    assert_eq!(
        parse_labels_from_response(&raw, &taxonomy),
        texts(&["question", "c-WASI-NN"])
    );
}
