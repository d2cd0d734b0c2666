use letter_bag::lines::{
    after_colon, dictionary_from_lines, parse_test_case, parse_test_cases, trim, white_space,
};

fn pair(letters: &str, expected: &str) -> Option<(String, String)> {
    Some((letters.to_string(), expected.to_string()))
}

fn lines(list: &[&str]) -> Vec<String> {
    list.iter().map(|line| line.to_string()).collect()
}

#[test]
fn white_space_is_what_unicode_says() {
    for c in ['\t', '\n', '\u{b}', '\u{c}', '\r', ' ', '\u{85}', '\u{a0}', '\u{1680}'] {
        assert!(white_space(c));
    }
    for c in ['\u{2000}', '\u{2005}', '\u{200a}', '\u{2028}', '\u{2029}', '\u{202f}'] {
        assert!(white_space(c));
    }
    assert!(white_space('\u{205f}'));
    assert!(white_space('\u{3000}'));
    for c in ['a', '0', ',', ':', '\u{8}', '\u{e}', '\u{1f}', '\u{200b}', '\u{feff}', '\u{180e}'] {
        assert!(!white_space(c));
    }
}

#[test]
fn white_space_agrees_with_std() {
    for code in 0u32..0x3100 {
        if let Some(c) = char::from_u32(code) {
            assert_eq!(white_space(c), c.is_whitespace());
        }
    }
}

#[test]
fn trim_drops_white_space_around() {
    assert_eq!(trim("  cat \t"), "cat");
    assert_eq!(trim("cat"), "cat");
    assert_eq!(trim("\u{3000}a b\u{a0}\r\n"), "a b");
    assert_eq!(trim(" a"), "a");
    assert_eq!(trim("a "), "a");
}

#[test]
fn trim_of_white_space_is_empty() {
    assert_eq!(trim(""), "");
    assert_eq!(trim(" "), "");
    assert_eq!(trim(" \t \r\n"), "");
}

#[test]
fn trim_keeps_letters_beyond_ascii() {
    assert_eq!(trim(" \u{e9}t\u{e9} "), "\u{e9}t\u{e9}");
    assert_eq!(trim("\u{4e2d} \u{6587}\n"), "\u{4e2d} \u{6587}");
}

#[test]
fn after_colon_takes_all_that_follows_the_first() {
    assert_eq!(after_colon("word:cart"), "cart");
    assert_eq!(after_colon("a:b:c"), "b:c");
    assert_eq!(after_colon(":x"), "x");
    assert_eq!(after_colon("x:"), "");
    assert_eq!(after_colon("no colon"), "");
    assert_eq!(after_colon(""), "");
    assert_eq!(after_colon("\u{e9}:\u{e9}t\u{e9}"), "\u{e9}t\u{e9}");
}

#[test]
fn dictionary_keeps_order_and_repeats() {
    let words = dictionary_from_lines(&lines(&[" cat", "car ", "", "cat", "\tcart\r"]));
    assert_eq!(words, lines(&["cat", "car", "", "cat", "cart"]));
    assert_eq!(dictionary_from_lines(&Vec::new()), Vec::<String>::new());
}

#[test]
fn test_case_has_letters_and_expected_word() {
    assert_eq!(
        parse_test_case("c:1,a:1,t:1,r:1, word:cart"),
        pair("c:1,a:1,t:1,r:1", "cart")
    );
    assert_eq!(parse_test_case("b:1,e:2, answer:bee"), pair("b:1,e:2", "bee"));
}

#[test]
fn test_case_line_is_trimmed() {
    assert_eq!(parse_test_case("  a:1, w:x \t"), pair("a:1", "x"));
    assert_eq!(parse_test_case("a:1, w:x\r"), pair("a:1", "x"));
}

#[test]
fn test_case_keeps_blanks_inside() {
    assert_eq!(parse_test_case("a:1,  w: x y"), pair("a:1", " x y"));
    assert_eq!(parse_test_case("a:1 b:2, w:x"), pair("a:1 b:2", "x"));
}

#[test]
fn test_case_expected_is_all_after_first_colon() {
    assert_eq!(parse_test_case("a:1, w:x:y"), pair("a:1", "x:y"));
    assert_eq!(parse_test_case("a:1, :x"), pair("a:1", "x"));
    assert_eq!(parse_test_case("a:1, w:"), pair("a:1", ""));
}

#[test]
fn test_case_without_colon_expects_nothing() {
    assert_eq!(parse_test_case("a:1, word"), pair("a:1", ""));
    assert_eq!(parse_test_case(", x"), pair("", ""));
}

#[test]
fn blank_line_is_no_test_case() {
    assert_eq!(parse_test_case(""), None);
    assert_eq!(parse_test_case("   "), None);
    assert_eq!(parse_test_case("\t\r\n"), None);
}

#[test]
fn line_without_separator_is_no_test_case() {
    assert_eq!(parse_test_case("a:1"), None);
    assert_eq!(parse_test_case("a:1,b:2,w:x"), None);
    assert_eq!(parse_test_case("a:1 ,w:x"), None);
    assert_eq!(parse_test_case("a:1,"), None);
    assert_eq!(parse_test_case("a:1, "), None);
}

#[test]
fn line_with_two_separators_is_no_test_case() {
    assert_eq!(parse_test_case("a:1, b:2, w:x"), None);
    assert_eq!(parse_test_case("a, , b"), None);
    assert_eq!(parse_test_case(", , x"), None);
    assert_eq!(parse_test_case("a:1, w:x, y"), None);
}

#[test]
fn separator_at_the_end_loses_its_blank_to_trimming() {
    assert_eq!(parse_test_case(", , "), pair("", ""));
    assert_eq!(parse_test_case("a:1, w:x, "), pair("a:1", "x,"));
}

#[test]
fn test_cases_pass_over_other_lines() {
    let cases = parse_test_cases(&lines(&[
        "c:1,a:1,t:1,r:1, word:cart",
        "",
        "no separator",
        "b:1,e:2, word:bee",
        "a:1, b:2, word:x",
        "   ",
        " a:1, w:a ",
    ]));
    assert_eq!(
        cases,
        vec![
            ("c:1,a:1,t:1,r:1".to_string(), "cart".to_string()),
            ("b:1,e:2".to_string(), "bee".to_string()),
            ("a:1".to_string(), "a".to_string()),
        ]
    );
    assert_eq!(parse_test_cases(&Vec::new()), Vec::new());
    assert_eq!(parse_test_cases(&lines(&["", "x"])), Vec::new());
}
