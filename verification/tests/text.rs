use migrations::text::{append_decimal, significant_digits, split_on_dots};

#[test]
fn a_text_splits_at_each_dot() {
    assert_eq!(vec!["1", "2", "3"], split_on_dots("1.2.3"));
    assert_eq!(vec!["10", "0"], split_on_dots("10.0"));
    assert_eq!(vec!["abc"], split_on_dots("abc"));
}

#[test]
fn dots_at_the_ends_leave_empty_pieces() {
    assert_eq!(vec![""], split_on_dots(""));
    assert_eq!(vec!["", ""], split_on_dots("."));
    assert_eq!(vec!["", "", ""], split_on_dots(".."));
    assert_eq!(vec!["1", ""], split_on_dots("1."));
    assert_eq!(vec!["", "1"], split_on_dots(".1"));
    assert_eq!(vec!["a", "", "b"], split_on_dots("a..b"));
}

#[test]
fn splitting_agrees_with_the_standard_split() {
    let samples =
        ["", ".", "1.2.3", "..a.", "x", "1.x.0", "\u{e9}.\u{4e2d}\u{6587}.\u{1f600}", "a.\u{1f600}."];
    for text in samples {
        let expected: Vec<&str> = text.split('.').collect();
        assert_eq!(expected, split_on_dots(text));
        assert_eq!(text, split_on_dots(text).join("."));
    }
}

#[test]
fn pieces_count_characters_not_bytes() {
    assert_eq!(vec!["\u{e9}\u{e9}", "\u{4e2d}", "z"], split_on_dots("\u{e9}\u{e9}.\u{4e2d}.z"));
}

fn written(n: u32) -> String {
    let mut out = String::new();
    append_decimal(&mut out, n);
    out
}

#[test]
fn numbers_are_written_in_decimal() {
    assert_eq!("0", written(0));
    assert_eq!("7", written(7));
    assert_eq!("10", written(10));
    assert_eq!("99", written(99));
    assert_eq!("100", written(100));
    assert_eq!("1234567890", written(1234567890));
    assert_eq!("4294967295", written(u32::MAX));
}

#[test]
fn written_numbers_agree_with_the_standard_formatting() {
    for n in [0, 1, 9, 10, 11, 19, 20, 101, 999, 1000, 65535, 65536, 4000000000, u32::MAX - 1] {
        assert_eq!(n.to_string(), written(n));
        assert_eq!(Ok(n), written(n).parse::<u32>());
    }
}

#[test]
fn a_number_is_appended_to_what_is_there() {
    let mut out = String::from("v");
    append_decimal(&mut out, 12);
    out.push('.');
    append_decimal(&mut out, 0);
    assert_eq!("v12.0", out);
}

#[test]
fn significant_digits_drop_the_sign_and_the_leading_zeros() {
    assert_eq!(Some("123"), significant_digits("123"));
    assert_eq!(Some("123"), significant_digits("+123"));
    assert_eq!(Some("123"), significant_digits("000123"));
    assert_eq!(Some("1020"), significant_digits("+01020"));
    assert_eq!(Some("4294967296"), significant_digits("04294967296"));
    assert_eq!(Some("99999999999999999999"), significant_digits("99999999999999999999"));
}

#[test]
fn no_significant_digit_is_left_of_zero() {
    assert_eq!(Some(""), significant_digits("0"));
    assert_eq!(Some(""), significant_digits("000"));
    assert_eq!(Some(""), significant_digits("+0"));
}

#[test]
fn a_text_that_writes_no_number_has_no_significant_digits() {
    assert_eq!(None, significant_digits(""));
    assert_eq!(None, significant_digits("+"));
    assert_eq!(None, significant_digits("++1"));
    assert_eq!(None, significant_digits("-1"));
    assert_eq!(None, significant_digits("1+2"));
    assert_eq!(None, significant_digits("12a"));
    assert_eq!(None, significant_digits("a12"));
    assert_eq!(None, significant_digits(" 1"));
    assert_eq!(None, significant_digits("1.2"));
    assert_eq!(None, significant_digits("\u{0663}"));
}
