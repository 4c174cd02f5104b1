use issue_labeler::locate::locate_answer;
use issue_labeler::prompt::{build_prompt, build_question, question_with, Payload};

#[test]
fn question_names_title_creator_and_essence() {
    let asked = build_question("Crash on start", "alice", &Some("it \"crashes\"".to_string()));
    assert_eq!(
        asked,
        "Can you assign labels to the GitHub issue titled `Crash on start` created by `alice`, stating `Some(\"it \\\"crashes\\\"\")`?"
    );
    let asked = build_question("T", "c", &None);
    assert_eq!(
        asked,
        "Can you assign labels to the GitHub issue titled `T` created by `c`, stating `None`?"
    );
}

#[test]
fn prompt_embeds_the_question_in_the_template() {
    let text = build_prompt("T", "c", &Some("e".to_string()));
    let expected = "Below is an instruction that describes a task, paired with an input that provides further context. Write a response that appropriately completes the request.\n\n        ### Instruction:\n        You're a programming bot tasked to analyze GitHub issues data and assign labels to them\"\n        ### Input:\n        Can you assign labels to the GitHub issue titled `T` created by `c`, stating `Some(\"e\")`?\n        \n        ### Response:";
    assert_eq!(text, expected);
}

#[test]
fn prompt_of_a_payload() {
    let payload = Payload {
        number: 7,
        title: "T".to_string(),
        url: "https://example.org/7".to_string(),
        labels: Some(vec!["bug".to_string()]),
        creator: "c".to_string(),
        essence: None,
    };
    assert_eq!(payload.prompt(), build_prompt("T", "c", &None));
    let empty = Payload::default();
    assert_eq!(empty.prompt(), build_prompt("", "", &None));
}

#[test]
fn prompt_alone_has_an_empty_answer() {
    let text = build_prompt("T", "c", &None);
    assert_eq!(locate_answer(&text), Ok(String::new()));
}

#[test]
fn question_with_a_given_form() {
    assert_eq!(
        question_with("T", "c", "as given"),
        "Can you assign labels to the GitHub issue titled `T` created by `c`, stating `as given`?"
    );
    assert_eq!(
        question_with("", "", ""),
        "Can you assign labels to the GitHub issue titled `` created by ``, stating ``?"
    );
}
