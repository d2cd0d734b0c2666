use letter_bag::letter_count::LetterCount;
use letter_bag::parser::parse_letter_count;
use letter_bag::score::get_word_score;

fn bag(description: &str) -> LetterCount {
    parse_letter_count(description).unwrap()
}

#[test]
fn score_counts_shared_letters() {
    let letters = bag("c:1,a:1,t:1,r:1");
    assert_eq!(get_word_score("cat".to_string(), &letters), 3);
    assert_eq!(get_word_score("car".to_string(), &letters), 3);
    assert_eq!(get_word_score("cart".to_string(), &letters), 4);
}

#[test]
fn score_of_bee_and_bed() {
    let letters = bag("b:1,e:2");
    assert_eq!(get_word_score("bee".to_string(), &letters), 3);
    assert_eq!(get_word_score("bed".to_string(), &letters), 2);
}

#[test]
fn score_is_capped_by_the_bag() {
    let letters = bag("a:2,b:1");
    assert_eq!(get_word_score("aaaa".to_string(), &letters), 2);
    assert_eq!(get_word_score("abab".to_string(), &letters), 3);
    assert_eq!(get_word_score("bbb".to_string(), &letters), 1);
}

#[test]
fn score_is_capped_by_the_word() {
    let letters = bag("a:9,b:9");
    assert_eq!(get_word_score("a".to_string(), &letters), 1);
    assert_eq!(get_word_score("ab".to_string(), &letters), 2);
    assert_eq!(get_word_score("abba".to_string(), &letters), 4);
}

#[test]
fn score_of_letters_not_in_bag_is_zero() {
    let letters = bag("a:1,b:2");
    assert_eq!(get_word_score("xyz".to_string(), &letters), 0);
    assert_eq!(get_word_score("".to_string(), &letters), 0);
    assert_eq!(get_word_score("xaz".to_string(), &letters), 1);
}

#[test]
fn score_against_empty_bag_is_zero() {
    let letters = LetterCount::new();
    assert_eq!(get_word_score("cat".to_string(), &letters), 0);
}

#[test]
fn score_ignores_the_order_of_letters() {
    let letters = bag("l:1,i:1,s:1,t:1,e:1,n:1");
    assert_eq!(get_word_score("listen".to_string(), &letters), 6);
    assert_eq!(get_word_score("silent".to_string(), &letters), 6);
    assert_eq!(get_word_score("tinsel".to_string(), &letters), 6);
}

#[test]
fn score_is_case_sensitive() {
    let letters = bag("a:1,B:1");
    assert_eq!(get_word_score("ab".to_string(), &letters), 1);
    assert_eq!(get_word_score("AB".to_string(), &letters), 1);
}

#[test]
fn score_takes_zero_count_for_nothing() {
    let letters = bag("a:0,b:1");
    assert_eq!(get_word_score("aab".to_string(), &letters), 1);
}

#[test]
fn score_passes_over_keys_of_several_letters() {
    let letters = bag("ab:5,c:1");
    assert_eq!(letters.total(), 6);
    assert_eq!(get_word_score("ab".to_string(), &letters), 0);
    assert_eq!(get_word_score("abc".to_string(), &letters), 1);
}

#[test]
fn score_of_letters_beyond_ascii() {
    let letters = bag("\u{e9}:1,t:1");
    assert_eq!(get_word_score("\u{e9}t\u{e9}".to_string(), &letters), 2);
}

#[test]
fn score_is_within_word_and_bag() {
    let bags = ["", "a:1", "a:3,b:2", "e:10", "z:1,q:1", "a:0", "ab:7,a:1"];
    let words = ["", "a", "aaa", "banana", "bee", "quiz", "abracadabra", "\u{e9}t\u{e9}"];
    for description in bags {
        let letters = bag(description);
        for word in words {
            let points = get_word_score(word.to_string(), &letters);
            assert!(points <= word.len());
            assert!(points <= word.chars().count());
            assert!(points as u128 <= letters.total());
        }
    }
}

#[test]
fn score_is_the_same_each_time() {
    let letters = bag("a:2,n:1,b:1");
    let first = get_word_score("banana".to_string(), &letters);
    let second = get_word_score("banana".to_string(), &letters);
    assert_eq!(first, 4);
    assert_eq!(first, second);
}
