use letter_bag::letter_count::LetterCount;
use letter_bag::parser::{
    letter_count_from_captures, parse_count, parse_letter_count, parse_letter_count_with,
    LetterBagError, LETTER_COUNT_PATTERN,
};

fn some(text: &str) -> Option<String> {
    Some(text.to_string())
}

#[test]
fn new_bag_is_empty() {
    let bag = LetterCount::new();
    assert_eq!(bag.total(), 0);
    assert_eq!(bag.get("a"), None);
}

#[test]
fn insert_sets_count_and_total() {
    let mut bag = LetterCount::new();
    bag.insert("a".to_string(), 2);
    bag.insert("b".to_string(), 3);
    assert_eq!(bag.get("a"), Some(2));
    assert_eq!(bag.get("b"), Some(3));
    assert_eq!(bag.get("c"), None);
    assert_eq!(bag.total(), 5);
}

#[test]
fn insert_overwrites_earlier_count() {
    let mut bag = LetterCount::new();
    bag.insert("a".to_string(), 7);
    bag.insert("b".to_string(), 1);
    bag.insert("a".to_string(), 2);
    assert_eq!(bag.get("a"), Some(2));
    assert_eq!(bag.total(), 3);
}

#[test]
fn total_goes_beyond_32_bits() {
    let mut bag = LetterCount::new();
    bag.insert("a".to_string(), u32::MAX);
    bag.insert("b".to_string(), u32::MAX);
    bag.insert("c".to_string(), 2);
    assert_eq!(bag.total(), 8_589_934_592u128);
}

#[test]
fn zero_count_is_a_key() {
    let mut bag = LetterCount::new();
    bag.insert("a".to_string(), 0);
    assert_eq!(bag.get("a"), Some(0));
    assert_eq!(bag.total(), 0);
}

#[test]
fn parse_count_reads_decimal() {
    assert_eq!(parse_count("0"), Some(0));
    assert_eq!(parse_count("12"), Some(12));
    assert_eq!(parse_count("007"), Some(7));
    assert_eq!(parse_count("4294967295"), Some(u32::MAX));
}

#[test]
fn parse_count_rejects_what_is_no_count() {
    assert_eq!(parse_count(""), None);
    assert_eq!(parse_count("1a"), None);
    assert_eq!(parse_count("+1"), None);
    assert_eq!(parse_count("-1"), None);
    assert_eq!(parse_count(" 1"), None);
    assert_eq!(parse_count("4294967296"), None);
    assert_eq!(parse_count("99999999999999999999"), None);
    assert_eq!(parse_count("\u{0663}"), None);
}

#[test]
fn pattern_is_letters_colon_digits() {
    assert_eq!(LETTER_COUNT_PATTERN, r"(\w+):(\d+)");
}

#[test]
fn parse_reads_every_token() {
    let bag = parse_letter_count("c:1,a:1,t:1,r:1").unwrap();
    assert_eq!(bag.get("c"), Some(1));
    assert_eq!(bag.get("a"), Some(1));
    assert_eq!(bag.get("t"), Some(1));
    assert_eq!(bag.get("r"), Some(1));
    assert_eq!(bag.get("x"), None);
    assert_eq!(bag.total(), 4);
}

#[test]
fn parse_does_not_hand_the_text_back() {
    let bag = parse_letter_count("b:1,e:2").unwrap();
    assert_eq!(bag.get("b:1,e:2"), None);
    assert_eq!(bag.get("b:1"), None);
    assert_eq!(bag.get("e"), Some(2));
    assert_eq!(bag.total(), 3);
}

#[test]
fn parse_last_token_wins() {
    let bag = parse_letter_count("a:1 b:4 a:5").unwrap();
    assert_eq!(bag.get("a"), Some(5));
    assert_eq!(bag.get("b"), Some(4));
    assert_eq!(bag.total(), 9);
}

#[test]
fn parse_takes_runs_of_letters() {
    let bag = parse_letter_count("ab:3, c_9:2").unwrap();
    assert_eq!(bag.get("ab"), Some(3));
    assert_eq!(bag.get("c_9"), Some(2));
    assert_eq!(bag.get("a"), None);
    assert_eq!(bag.total(), 5);
}

#[test]
fn parse_skips_what_is_no_token() {
    let bag = parse_letter_count("letters -> a:2; (b : 3) c:x d:4!").unwrap();
    assert_eq!(bag.get("a"), Some(2));
    assert_eq!(bag.get("b"), None);
    assert_eq!(bag.get("c"), None);
    assert_eq!(bag.get("d"), Some(4));
    assert_eq!(bag.total(), 6);
}

#[test]
fn parse_of_text_without_token_is_empty_bag() {
    let bag = parse_letter_count("nothing here").unwrap();
    assert_eq!(bag.total(), 0);
    let bag = parse_letter_count("").unwrap();
    assert_eq!(bag.total(), 0);
}

#[test]
fn parse_takes_zero_count() {
    let bag = parse_letter_count("a:0").unwrap();
    assert_eq!(bag.get("a"), Some(0));
    assert_eq!(bag.total(), 0);
}

#[test]
fn parse_takes_letters_beyond_ascii() {
    let bag = parse_letter_count("\u{e9}:2,\u{4e2d}:1").unwrap();
    assert_eq!(bag.get("\u{e9}"), Some(2));
    assert_eq!(bag.get("\u{4e2d}"), Some(1));
    assert_eq!(bag.total(), 3);
}

#[test]
fn parse_fails_on_count_beyond_32_bits() {
    assert_eq!(parse_letter_count("a:4294967295").unwrap().get("a"), Some(u32::MAX));
    assert_eq!(parse_letter_count("a:4294967296").err(), Some(LetterBagError::Count));
    assert_eq!(parse_letter_count("a:1,b:99999999999,c:2").err(), Some(LetterBagError::Count));
}

#[test]
fn parse_fails_on_digits_beyond_ascii() {
    assert_eq!(parse_letter_count("a:\u{0663}").err(), Some(LetterBagError::Count));
}

#[test]
fn parse_with_pattern_that_does_not_compile() {
    assert_eq!(parse_letter_count_with("(", "a:1").err(), Some(LetterBagError::Pattern));
}

#[test]
fn parse_with_pattern_that_lacks_a_group() {
    assert_eq!(parse_letter_count_with(r"\w+:\d+", "a:1").err(), Some(LetterBagError::Group));
    assert_eq!(parse_letter_count_with(r"(\w+):\d+", "a:1").err(), Some(LetterBagError::Group));
    assert_eq!(parse_letter_count_with(r"(a)|(\d)", "a").err(), Some(LetterBagError::Group));
    assert_eq!(parse_letter_count_with(r"\w+:\d+", "no token").unwrap().total(), 0);
}

#[test]
fn parse_with_other_pattern() {
    let bag = parse_letter_count_with(r"([a-z])=(\d+)", "a=3;b=4;C=9").unwrap();
    assert_eq!(bag.get("a"), Some(3));
    assert_eq!(bag.get("b"), Some(4));
    assert_eq!(bag.get("C"), None);
    assert_eq!(bag.total(), 7);
}

#[test]
fn captures_give_bag() {
    let matches = vec![
        vec![some("a:1"), some("a"), some("1")],
        vec![some("bc:20"), some("bc"), some("20")],
        vec![some("a:3"), some("a"), some("3"), None],
    ];
    let bag = letter_count_from_captures(&matches).unwrap();
    assert_eq!(bag.get("a"), Some(3));
    assert_eq!(bag.get("bc"), Some(20));
    assert_eq!(bag.total(), 23);
    assert_eq!(letter_count_from_captures(&Vec::new()).unwrap().total(), 0);
}

#[test]
fn captures_first_fault_decides() {
    let no_count = vec![vec![some("a"), some("a"), None]];
    assert_eq!(letter_count_from_captures(&no_count).err(), Some(LetterBagError::Group));
    let no_letters = vec![vec![some("1"), None, some("1")]];
    assert_eq!(letter_count_from_captures(&no_letters).err(), Some(LetterBagError::Group));
    let short = vec![vec![some("a:1"), some("a")]];
    assert_eq!(letter_count_from_captures(&short).err(), Some(LetterBagError::Group));
    let bad_count = vec![vec![some("a:x"), some("a"), some("x")]];
    assert_eq!(letter_count_from_captures(&bad_count).err(), Some(LetterBagError::Count));
    let count_then_group = vec![
        vec![some("a:1"), some("a"), some("1")],
        vec![some("b:x"), some("b"), some("x")],
        vec![some("c"), some("c"), None],
    ];
    assert_eq!(letter_count_from_captures(&count_then_group).err(), Some(LetterBagError::Count));
    let group_then_count = vec![
        vec![some("c"), some("c"), None],
        vec![some("b:x"), some("b"), some("x")],
    ];
    assert_eq!(letter_count_from_captures(&group_then_count).err(), Some(LetterBagError::Group));
}
