use spreadsheet::address::label_parts;
use spreadsheet::text::{cut, digit, digits_from, ends, find, letter, parse_i32, to_chars, to_string, upper, Stop};

fn chars(s: &str) -> Vec<char> {
    s.chars().collect()
}

fn parse(s: &str) -> Option<i32> {
    let c = chars(s);
    parse_i32(&c, 0, c.len())
}

#[test]
fn to_chars_and_back() {
    let text = "A1=\u{e9}+\u{1F600}";
    let c = to_chars(text);
    assert_eq!(c, chars(text));
    assert_eq!(to_string(&c, 0, c.len()), text);
    assert_eq!(to_string(&c, 3, 5), "\u{e9}+");
    assert_eq!(to_string(&c, 2, 2), "");
    assert_eq!(to_chars(""), Vec::<char>::new());
}

#[test]
fn cut_gives_nothing_outside_the_text() {
    let c = chars("hello");
    assert_eq!(cut(&c, 1, 3), "el");
    assert_eq!(cut(&c, 0, 5), "hello");
    assert_eq!(cut(&c, 5, 5), "");
    assert_eq!(cut(&c, 3, 2), "");
    assert_eq!(cut(&c, 2, 6), "");
    assert_eq!(cut(&c, 6, 6), "");
}

#[test]
fn parse_i32_reads_what_the_standard_library_reads() {
    for text in [
        "0", "7", "-7", "+7", "007", "-0", "+0", "2147483647", "-2147483648", "2147483648",
        "-2147483649", "99999999999999999999", "-99999999999999999999", "", "+", "-", "--1",
        "+-1", "1-", "1 ", " 1", "1_000", "0x10", "1.5", "abc", "\u{663}",
        "00000000000000000000000000000012",
    ] {
        assert_eq!(parse(text), text.parse::<i32>().ok(), "{:?}", text);
    }
    let c = chars("x-12y");
    assert_eq!(parse_i32(&c, 1, 4), Some(-12));
    assert_eq!(parse_i32(&c, 2, 4), Some(12));
    assert_eq!(parse_i32(&c, 1, 5), None);
    assert_eq!(parse_i32(&c, 3, 3), None);
}

#[test]
fn character_classes() {
    for c in ['0', '5', '9'] {
        assert!(digit(c));
    }
    for c in ['/', ':', 'a', '\u{663}'] {
        assert!(!digit(c));
    }
    for c in ['A', 'M', 'Z'] {
        assert!(upper(c) && letter(c));
    }
    for c in ['a', 'm', 'z'] {
        assert!(!upper(c) && letter(c));
    }
    for c in ['@', '[', '`', '{', '1', '\u{c9}'] {
        assert!(!upper(c) && !letter(c));
    }
}

#[test]
fn scans_end_at_the_first_match() {
    let c = chars("ab  +-cD9");
    assert_eq!(find(&c, 0, Stop::At(' ')), 2);
    assert_eq!(find(&c, 2, Stop::At(' ')), 2);
    assert_eq!(find(&c, 0, Stop::At('?')), 9);
    assert_eq!(find(&c, 9, Stop::At('a')), 9);
    assert_eq!(find(&c, 2, Stop::Not(' ')), 4);
    assert_eq!(find(&c, 0, Stop::Operator), 4);
    assert_eq!(find(&c, 5, Stop::Operator), 5);
    assert_eq!(find(&c, 6, Stop::Operator), 9);
    assert_eq!(find(&c, 0, Stop::NotLetter), 2);
    assert_eq!(find(&c, 6, Stop::NotLetter), 8);
    assert_eq!(find(&c, 6, Stop::NotUpper), 6);
    assert_eq!(find(&c, 7, Stop::NotUpper), 8);
    assert_eq!(find(&c, 4, Stop::NotSign), 6);
    for c in ['*', '/', '+', '-'] {
        assert!(ends(Stop::Operator, c));
    }
    assert!(!ends(Stop::Operator, '='));
    assert!(ends(Stop::NotSign, '1') && !ends(Stop::NotSign, '+') && !ends(Stop::NotSign, '-'));
}

#[test]
fn digits_from_a_position() {
    let c = chars("Ab12");
    assert!(!digits_from(&c, 0));
    assert!(!digits_from(&c, 1));
    assert!(digits_from(&c, 2));
    assert!(digits_from(&c, 4));
}

#[test]
fn label_parts_of_labels() {
    assert_eq!(label_parts(&chars("A1")), (1, 1));
    assert_eq!(label_parts(&chars("ZZZ999")), (18278, 999));
    assert_eq!(label_parts(&chars("AAAA5")), (18279, 5));
    assert_eq!(label_parts(&chars("B-5")), (2, -5));
    assert_eq!(label_parts(&chars("Bq7")), (2, 7));
    assert_eq!(label_parts(&chars("q7")), (0, 7));
    assert_eq!(label_parts(&chars("")), (0, 0));
    // six letters still count exactly, many letters only as too many
    assert_eq!(label_parts(&chars("ZZZZZZ1")).0, 321272406);
    assert!(label_parts(&chars("ZZZZZZZZZZZZZZZZZZZZZZZZZZZZZZ1")).0 > u32::MAX as i64);
}
