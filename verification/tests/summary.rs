use issue_labeler::pipeline::{plan_report, ReportPlan};
use issue_labeler::summary::{cut_text, summary_prompt, system_prompt, BODY_LIMIT};

fn labels(items: &[&str]) -> Vec<String> {
    items.iter().map(|s| s.to_string()).collect()
}

#[test]
fn system_prompt_is_fixed() {
    assert_eq!(system_prompt(), "You're a programming bot tasked to analyze GitHub issues data.");
}

#[test]
fn cut_text_keeps_the_first_characters() {
    assert_eq!(cut_text("h\u{e9}llo", 2), "h\u{e9}");
    assert_eq!(cut_text("h\u{e9}llo", 5), "h\u{e9}llo");
    assert_eq!(cut_text("h\u{e9}llo", 9), "h\u{e9}llo");
    assert_eq!(cut_text("hello", 0), "");
    assert_eq!(cut_text("", 3), "");
}

#[test]
fn summary_prompt_quotes_the_issue_text() {
    let expected = "You are tasked with refining and simplifying the information presented in a GitHub issue while keeping the original author's perspective. Think of it as if the original author decided to restate their issue in a more concise manner, focusing on clarity and brevity without losing the essence or the technical specifics of their original message.\n        Issue text: It crashes.\n        Instructions:\n        - Condense the issue's content by focusing on the primary technical details, proposals, and challenges mentioned, as if restating them directly in the author's voice.\n        - Maintain the original tone and perspective of the author. Your summary should read as though the author themselves is offering a clearer, more straightforward version of their original text.\n        - Include key actionable items, technical specifics, and any proposed solutions or requests made by the author, ensuring these elements are presented succinctly.\n        - Avoid shifting to a third-person narrative. The goal is to simplify the author's message without altering the viewpoint from which it is delivered.\n        - Preserve any direct quotes, technical terms, or specific examples the author used to illustrate their points, but ensure they are integrated into the summary seamlessly and without unnecessary elaboration.\n        - Aim for a summary that allows quick grasping of core points and intentions, aiding efficient understanding and response. \n        - Explicitly remove unnecessary new lines, spaces, and combine multiple new lines into one. Pay special attention to avoid consecutive new lines (i.e., '\\n\\n') in your summary. Escape special characters as needed for command line compatibility.\n        - Do not add extraneous wordings or notations like 'summary', '###', etc., from the original text.\n        Your summary's effectiveness in capturing the essence while staying true to the author's intent is crucial for accurate content analysis and label assignment training.";
    assert_eq!(summary_prompt("It crashes."), expected);
    assert_eq!(summary_prompt("").len(), 1976);
}

#[test]
fn summary_prompt_cuts_a_long_text() {
    assert_eq!(BODY_LIMIT, 32000);
    let long = "x".repeat(BODY_LIMIT + 5);
    let text = summary_prompt(&long);
    assert_eq!(text.len(), summary_prompt("").len() + BODY_LIMIT);
    let exact = "y".repeat(BODY_LIMIT);
    assert!(summary_prompt(&exact).contains(&exact));
}

#[test]
fn plan_report_creates_with_the_last_label() {
    assert_eq!(
        plan_report(labels(&["bug", "c-CLI", "question"])),
        Some(ReportPlan {
            first: "question".to_string(),
            rest: labels(&["bug", "c-CLI"]),
            done: true
        })
    );
}

#[test]
fn plan_report_with_one_label_ends_the_run() {
    assert_eq!(
        plan_report(labels(&["bug"])),
        Some(ReportPlan { first: "bug".to_string(), rest: Vec::new(), done: true })
    );
}

#[test]
fn plan_report_without_labels_is_no_plan() {
    assert_eq!(plan_report(Vec::new()), None);
}
