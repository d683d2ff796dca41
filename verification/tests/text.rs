use proctree::text::{
    blank, chars_of, concat_decimal, join, lines, parse_int, push_decimal, push_digits,
    push_range, push_str, string_of, white_space,
};

fn chars(s: &str) -> Vec<char> {
    s.chars().collect()
}

#[test]
fn characters_of_a_string() {
    assert_eq!(chars_of("a\u{e9}z"), vec!['a', '\u{e9}', 'z']);
    assert_eq!(chars_of(""), Vec::<char>::new());
}

#[test]
fn string_of_a_range() {
    let v = chars("hello");
    assert_eq!(string_of(&v, 1, 4), "ell");
    assert_eq!(string_of(&v, 0, 5), "hello");
    assert_eq!(string_of(&v, 2, 2), "");
}

#[test]
fn decimal_digits() {
    let mut out = Vec::new();
    push_digits(&mut out, 0);
    push_str(&mut out, ",");
    push_digits(&mut out, 9);
    push_str(&mut out, ",");
    push_digits(&mut out, 10);
    push_str(&mut out, ",");
    push_digits(&mut out, u64::MAX);
    assert_eq!(out, chars("0,9,10,18446744073709551615"));
}

#[test]
fn decimal_with_sign() {
    let mut out = Vec::new();
    push_decimal(&mut out, -1);
    push_str(&mut out, " ");
    push_decimal(&mut out, i64::MIN);
    push_str(&mut out, " ");
    push_decimal(&mut out, i64::MAX);
    push_str(&mut out, " ");
    push_decimal(&mut out, 0);
    assert_eq!(
        out,
        chars("-1 -9223372036854775808 9223372036854775807 0")
    );
}

#[test]
fn appending_a_range() {
    let mut out = chars("ab");
    push_range(&mut out, &chars("0123"), 1, 3);
    assert_eq!(out, chars("ab12"));
}

#[test]
fn concatenation() {
    assert_eq!(proctree::text::concat("ab", "cd"), "abcd");
    assert_eq!(proctree::text::concat("", ""), "");
    assert_eq!(concat_decimal("n = ", -42), "n = -42");
}

#[test]
fn parsing_in_a_range() {
    assert_eq!(parse_int("12", true, -100, 100), Some(12));
    assert_eq!(parse_int("-12", true, -100, 100), Some(-12));
    assert_eq!(parse_int("-12", false, -100, 100), None);
    assert_eq!(parse_int("+12", false, 0, 100), Some(12));
    assert_eq!(parse_int("100", true, -100, 100), Some(100));
    assert_eq!(parse_int("101", true, -100, 100), None);
    assert_eq!(parse_int("-100", true, -100, 100), Some(-100));
    assert_eq!(parse_int("-101", true, -100, 100), None);
    assert_eq!(parse_int("0000000000000000000000000000000000012", true, -100, 100), Some(12));
    assert_eq!(parse_int("", true, -100, 100), None);
    assert_eq!(parse_int("1a", true, -100, 100), None);
    assert_eq!(parse_int("\u{661}", true, -100, 100), None);
    assert_eq!(
        parse_int("18446744073709551615", false, 0, u64::MAX as i128),
        Some(u64::MAX as i128)
    );
    assert_eq!(
        parse_int("18446744073709551617", false, 0, 18446744073709551616),
        None
    );
    assert_eq!(
        parse_int("340282366920938463463374607431768211456", false, 0, 10),
        None
    );
}

#[test]
fn white_space_characters() {
    assert!(white_space(' '));
    assert!(white_space('\t'));
    assert!(white_space('\n'));
    assert!(white_space('\r'));
    assert!(white_space('\u{a0}'));
    assert!(white_space('\u{3000}'));
    assert!(!white_space('a'));
    assert!(!white_space('\u{200b}'));
    for c in ['\u{0}', '\u{8}', '\u{e}', '\u{1f}', '!', '\u{84}', '\u{86}', '\u{1680}',
        '\u{2000}', '\u{200a}', '\u{2028}', '\u{2029}', '\u{202f}', '\u{205f}', '\u{feff}']
    {
        assert_eq!(white_space(c), c.is_whitespace());
    }
}

#[test]
fn blank_texts() {
    assert!(blank(&chars("")));
    assert!(blank(&chars(" \t\r\n")));
    assert!(!blank(&chars(" x ")));
    for s in ["", "  ", "a", " a", "\u{a0}", "\n\n", "0"] {
        assert_eq!(blank(&chars(s)), s.trim().is_empty());
    }
}

#[test]
fn lines_of_a_text() {
    let cases = [
        "", "a", "a\n", "a\nb", "a\n\nb", "\n", "\n\n", "a\r\nb\r\n", "a\rb", "a\r",
        "a\r\n", "\r\n", "\r", "a\n\r", "a\r\r\nb", "one\ntwo\nthree",
    ];
    for s in cases {
        let expected: Vec<Vec<char>> = s.lines().map(chars).collect();
        assert_eq!(lines(&chars(s)), expected, "lines of {:?}", s);
    }
    assert_eq!(lines(&chars("a\r\nb\n")), vec![chars("a"), chars("b")]);
}

#[test]
fn joining_texts() {
    assert_eq!(join(&vec![], ", "), chars(""));
    assert_eq!(join(&vec![chars("a")], ", "), chars("a"));
    assert_eq!(
        join(&vec![chars("a"), chars(""), chars("c")], ", "),
        chars("a, , c")
    );
    assert_eq!(join(&vec![chars("a"), chars("b")], ""), chars("ab"));
}
