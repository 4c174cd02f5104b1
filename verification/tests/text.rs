use issue_labeler::text::{
    chars_of, copy_range, find, find_from, folded_chars_of, is_white_space, matches_at,
    push_decimal, same_chars, string_of, to_lower_char, to_upper_char, trim_range,
};

fn letters(s: &str) -> Vec<char> {
    s.chars().collect()
}

#[test]
fn chars_of_gives_the_characters() {
    assert_eq!(chars_of("a\u{e9}\u{1f600}b"), vec!['a', '\u{e9}', '\u{1f600}', 'b']);
    assert_eq!(chars_of(""), Vec::<char>::new());
}

#[test]
fn folding_lowers_ascii_letters_only() {
    assert_eq!(folded_chars_of("AbZ-09_\u{c9}@[`{"), letters("abz-09_\u{c9}@[`{"));
    assert_eq!(to_lower_char('A'), 'a');
    assert_eq!(to_lower_char('Z'), 'z');
    assert_eq!(to_lower_char('a'), 'a');
    assert_eq!(to_lower_char('@'), '@');
    assert_eq!(to_lower_char('['), '[');
    assert_eq!(to_upper_char('a'), 'A');
    assert_eq!(to_upper_char('z'), 'Z');
    assert_eq!(to_upper_char('`'), '`');
    assert_eq!(to_upper_char('{'), '{');
    for c in ['a', 'Q', '1', '\u{e9}', '\u{130}'] {
        assert_eq!(to_lower_char(c), c.to_ascii_lowercase());
        assert_eq!(to_upper_char(c), c.to_ascii_uppercase());
    }
}

#[test]
fn string_of_and_copy_range_take_a_range() {
    let v = letters("hello world");
    assert_eq!(string_of(&v, 6, 11), "world");
    assert_eq!(string_of(&v, 3, 3), "");
    assert_eq!(copy_range(&v, 0, 5), letters("hello"));
    assert_eq!(copy_range(&v, 11, 11), letters(""));
}

#[test]
fn find_gives_the_first_index() {
    let hay = letters("abcabc");
    assert_eq!(find(&hay, &letters("bc")), Some(1));
    assert_eq!(find(&hay, &letters("abcabc")), Some(0));
    assert_eq!(find(&hay, &letters("abcabcd")), None);
    assert_eq!(find(&hay, &letters("cb")), None);
    assert_eq!(find(&hay, &letters("")), Some(0));
    assert_eq!(find(&letters(""), &letters("")), Some(0));
    assert_eq!(find(&letters(""), &letters("a")), None);
    assert_eq!(find_from(&hay, &letters("bc"), 2), Some(4));
    assert_eq!(find_from(&hay, &letters("bc"), 5), None);
    assert_eq!(find_from(&hay, &letters(""), 6), Some(6));
    assert_eq!(find_from(&hay, &letters(""), 7), None);
}

#[test]
fn matches_at_and_same_chars() {
    let hay = letters("abcabc");
    assert!(matches_at(&hay, &letters("cab"), 2));
    assert!(!matches_at(&hay, &letters("cab"), 3));
    assert!(!matches_at(&hay, &letters("bc"), 5));
    assert!(matches_at(&hay, &letters(""), 6));
    assert!(!matches_at(&hay, &letters(""), 7));
    assert!(same_chars(&letters("abc"), &letters("abc")));
    assert!(!same_chars(&letters("abc"), &letters("abd")));
    assert!(!same_chars(&letters("abc"), &letters("ab")));
}

#[test]
fn trim_range_drops_white_space_at_both_ends() {
    let v = letters(" \t a b \u{3000}\n");
    assert_eq!(trim_range(&v, 0, v.len()), (3, 6));
    assert_eq!(trim_range(&v, 4, 5), (5, 5));
    assert_eq!(trim_range(&v, 3, 4), (3, 4));
    let blank = letters(" \u{a0}\r\n");
    assert_eq!(trim_range(&blank, 0, 4), (4, 4));
    // U+200B is not white space.
    let zero_width = letters("\u{200b}a ");
    assert_eq!(trim_range(&zero_width, 0, 3), (0, 2));
}

#[test]
fn push_decimal_writes_digits() {
    let mut out = "n=".to_string();
    push_decimal(&mut out, 0);
    assert_eq!(out, "n=0");
    push_decimal(&mut out, 7);
    push_decimal(&mut out, 10);
    push_decimal(&mut out, 65535);
    assert_eq!(out, "n=071065535");
    let mut big = String::new();
    push_decimal(&mut big, u64::MAX);
    assert_eq!(big, "18446744073709551615");
}

#[test]
fn white_space_is_the_unicode_property() {
    for c in [' ', '\t', '\n', '\u{b}', '\u{c}', '\r', '\u{85}', '\u{a0}', '\u{1680}', '\u{2000}',
        '\u{200a}', '\u{2028}', '\u{2029}', '\u{202f}', '\u{205f}', '\u{3000}']
    {
        assert!(is_white_space(c));
    }
    for c in ['a', '0', '\u{8}', '\u{e}', '\u{1f}', '\u{180e}', '\u{200b}', '\u{2060}', '\u{feff}'] {
        assert!(!is_white_space(c));
    }
    let mut count = 0;
    for n in 0..=0x10ffffu32 {
        if let Some(c) = char::from_u32(n) {
            assert_eq!(is_white_space(c), c.is_whitespace());
            if is_white_space(c) {
                count += 1;
            }
        }
    }
    assert_eq!(count, 25);
}
