use issue_labeler::schedule::{cron_expression, push_two_digits};

#[test]
fn cron_expression_is_two_minutes_later() {
    assert_eq!(cron_expression(5, 9, 3), "07 09 03 * *");
    assert_eq!(cron_expression(0, 0, 1), "02 00 01 * *");
    assert_eq!(cron_expression(41, 23, 31), "43 23 31 * *");
}

#[test]
fn cron_expression_does_not_wrap_the_minute() {
    assert_eq!(cron_expression(58, 10, 12), "60 10 12 * *");
    assert_eq!(cron_expression(59, 10, 12), "61 10 12 * *");
    assert_eq!(cron_expression(u32::MAX, 100, 7), "4294967297 100 07 * *");
}

#[test]
fn two_digits_pads_with_a_zero() {
    let mut out = String::new();
    push_two_digits(&mut out, 0);
    push_two_digits(&mut out, 9);
    push_two_digits(&mut out, 10);
    push_two_digits(&mut out, 123);
    assert_eq!(out, "000910123");
}
