use issue_labeler::locate::{locate_answer, SectionNotFound};

#[test]
fn locate_returns_trimmed_text_after_marker() {
    let raw = "Below is an instruction.\n### Response:\n `bug, c-CLI` \n";
    assert_eq!(locate_answer(raw), Ok("`bug, c-CLI`".to_string()));
}

#[test]
fn locate_fails_without_marker() {
    assert_eq!(locate_answer("no marker here"), Err(SectionNotFound));
    assert_eq!(locate_answer(""), Err(SectionNotFound));
    assert_eq!(locate_answer("### Response"), Err(SectionNotFound));
    assert_eq!(locate_answer("### response:"), Err(SectionNotFound));
}

#[test]
fn locate_takes_what_follows_the_first_marker() {
    let raw = "a ### Response: first ### Response: second";
    assert_eq!(locate_answer(raw), Ok("first ### Response: second".to_string()));
}

#[test]
fn locate_gives_empty_answer_when_nothing_follows() {
    assert_eq!(locate_answer("### Response:"), Ok(String::new()));
    assert_eq!(locate_answer("x### Response: \t\n"), Ok(String::new()));
}

#[test]
fn locate_trims_unicode_white_space() {
    let raw = "### Response:\u{3000}\u{a0} label\u{2003}\r\n";
    assert_eq!(locate_answer(raw), Ok("label".to_string()));
}

#[test]
fn locate_keeps_inner_white_space_and_other_characters() {
    let raw = "### Response:  good first issue, \u{e9}t\u{e9}  ";
    assert_eq!(locate_answer(raw), Ok("good first issue, \u{e9}t\u{e9}".to_string()));
}

#[test]
fn locate_on_its_own_output_without_marker_is_not_found() {
    let raw = "prompt text ### Response:\n`bug`";
    let answer = locate_answer(raw).unwrap();
    assert_eq!(answer, "`bug`");
    assert_eq!(locate_answer(&answer), Err(SectionNotFound));
    assert_eq!(locate_answer(&answer), Err(SectionNotFound));
}
