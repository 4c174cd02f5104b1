use issue_labeler::extract::{extract_candidates, pieces_into, scan_to};

fn strings(items: &[&str]) -> Vec<String> {
    items.iter().map(|s| s.to_string()).collect()
}

#[test]
fn extract_without_backticks_is_empty() {
    assert_eq!(extract_candidates(""), Vec::<String>::new());
    assert_eq!(extract_candidates("bug, c-CLI"), Vec::<String>::new());
    assert_eq!(extract_candidates("no labels, sorry."), Vec::<String>::new());
}

#[test]
fn extract_single_segment_with_list() {
    assert_eq!(extract_candidates("`bug, c-CLI`"), strings(&["bug", "c-CLI"]));
    assert_eq!(
        extract_candidates("`bug, c-CLI, documentation`"),
        strings(&["bug", "c-CLI", "documentation"])
    );
}

#[test]
fn extract_several_segments_in_order() {
    let answer = "I suggest `bug` and `c-CLI, enhancement`; maybe `question`.";
    assert_eq!(
        extract_candidates(answer),
        strings(&["bug", "c-CLI", "enhancement", "question"])
    );
}

#[test]
fn extract_trims_and_drops_empty_pieces() {
    assert_eq!(extract_candidates("`  bug ,, , c-CLI ,`"), strings(&["bug", "c-CLI"]));
    assert_eq!(extract_candidates("` , ,`"), Vec::<String>::new());
    assert_eq!(extract_candidates("`\u{3000}good first issue\t`"), strings(&["good first issue"]));
}

#[test]
fn extract_ignores_an_unclosed_backtick() {
    assert_eq!(extract_candidates("`bug"), Vec::<String>::new());
    assert_eq!(extract_candidates("`bug` and `c-CLI"), strings(&["bug"]));
    assert_eq!(extract_candidates("`"), Vec::<String>::new());
}

#[test]
fn extract_skips_empty_pairs() {
    assert_eq!(extract_candidates("``"), Vec::<String>::new());
    assert_eq!(extract_candidates("``bug`"), strings(&["bug"]));
    assert_eq!(extract_candidates("```bug```"), strings(&["bug"]));
    assert_eq!(extract_candidates("`a``b`"), strings(&["a", "b"]));
}

#[test]
fn extract_segments_do_not_share_a_backtick() {
    assert_eq!(extract_candidates("`a`b`c`"), strings(&["a", "c"]));
}

#[test]
fn extract_keeps_the_case_of_candidates() {
    assert_eq!(extract_candidates("`Bug, C-cli`"), strings(&["Bug", "C-cli"]));
}

#[test]
fn scan_to_finds_the_first_stop() {
    let hay: Vec<char> = "ab,cd,".chars().collect();
    assert_eq!(scan_to(&hay, 0, 6, ','), 2);
    assert_eq!(scan_to(&hay, 3, 6, ','), 5);
    assert_eq!(scan_to(&hay, 3, 5, ','), 5);
    assert_eq!(scan_to(&hay, 0, 2, ','), 2);
    assert_eq!(scan_to(&hay, 6, 6, ','), 6);
}

#[test]
fn pieces_into_appends_the_pieces_of_a_range() {
    let hay: Vec<char> = "x a , b ,, y".chars().collect();
    let mut out = strings(&["first"]);
    pieces_into(&hay, 1, 10, &mut out);
    assert_eq!(out, strings(&["first", "a", "b"]));
}
