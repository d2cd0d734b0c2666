//! Reading a letter bag from its description: tokens of the form
//! `letters:count`, found by a regular expression.

use crate::letter_count::LetterCount;
use vstd::prelude::*;

verus! {

/// The pattern of one token: a run of word characters, a colon, a run of
/// digits.
pub const LETTER_COUNT_PATTERN: &'static str = "(\\w+):(\\d+)";

/// Why a description gives no letter bag.
#[derive(Clone, Copy, Debug, PartialEq, Eq, Structural)]
pub enum LetterBagError {
    /// The pattern was not accepted as a regular expression.
    Pattern,
    /// A match lacks the group of the letters or the group of the count.
    Group,
    /// A count is not a decimal number that fits in 32 bits.
    Count,
}

/// `c` is one of the digits `0` to `9`.
pub open spec fn is_decimal_digit(c: char) -> bool {
    '0' <= c <= '9'
}

/// The number that a run of decimal digits writes.
pub open spec fn decimal_value(digits: Seq<char>) -> nat
    decreases digits.len(),
{
    if digits.len() == 0 {
        0
    } else {
        decimal_value(digits.drop_last()) * 10 + (digits.last() as u32 - '0' as u32) as nat
    }
}

/// The count that `digits` writes: `digits` is not empty, holds decimal
/// digits only, and the number fits in 32 bits.
pub open spec fn count_of(digits: Seq<char>) -> Option<u32> {
    if digits.len() > 0 && (forall|i: int| 0 <= i < digits.len() ==> is_decimal_digit(digits[i]))
        && decimal_value(digits) <= u32::MAX {
        Some(decimal_value(digits) as u32)
    } else {
        None
    }
}

/// A run of digits writes no smaller a number than any of its beginnings.
pub proof fn lemma_decimal_value_grows(digits: Seq<char>, n: int)
    requires
        0 <= n <= digits.len(),
        forall|i: int| 0 <= i < digits.len() ==> is_decimal_digit(digits[i]),
    ensures
        decimal_value(digits.take(n)) <= decimal_value(digits),
    decreases digits.len() - n,
{
    if n == digits.len() {
        assert(digits.take(n) == digits);
    } else {
        lemma_decimal_value_grows(digits, n + 1);
        assert(digits.take(n + 1).drop_last() == digits.take(n));
    }
}

/// Reads a count: see `count_of`.
pub fn parse_count(digits: &str) -> (count: Option<u32>)
    ensures
        count == count_of(digits@),
{
    let mut value: u32 = 0;
    let mut any = false;
    for c in it: digits.chars()
        invariant
            it.seq() == digits@,
            any == (it.index() > 0),
            forall|i: int| 0 <= i < it.index() ==> is_decimal_digit(digits@[i]),
            value == decimal_value(digits@.take(it.index() as int)),
    {
        let ghost here = it.index() as int;
        assert(digits@.take(here + 1).drop_last() == digits@.take(here));
        if !('0' <= c && c <= '9') {
            assert(!is_decimal_digit(digits@[here]));
            return None;
        }
        let digit = c as u32 - '0' as u32;
        if value > (u32::MAX - digit) / 10 {
            proof {
                if forall|i: int| 0 <= i < digits@.len() ==> is_decimal_digit(digits@[i]) {
                    lemma_decimal_value_grows(digits@, here + 1);
                }
            }
            return None;
        }
        value = value * 10 + digit;
        any = true;
    }
    assert(digits@.take(digits@.len() as int) == digits@);
    if any {
        Some(value)
    } else {
        None
    }
}

/// The error type of the `regex` crate.
#[verifier::external_type_specification]
#[verifier::external_body]
pub struct ExRegexError(regex::Error);

/// What the `regex` crate finds of `pattern` in `text`: `None` where it does
/// not accept the pattern; else its matches from left to right, each with
/// the text of its groups, the whole match first, and `None` for a group
/// that took no part in the match.
pub uninterp spec fn regex_captures(pattern: Seq<char>, text: Seq<char>) -> Option<
    Seq<Seq<Option<Seq<char>>>>,
>;

/// Compiles `pattern` with `regex::Regex::new` and walks `text` with
/// `regex::Regex::captures_iter`, copying out of each match the text of each
/// group. Nothing is proved of what the crate finds: the contract only gives
/// it its name, `regex_captures`, as a function of the pattern and the text.
#[verifier::external_body]
fn captures_of(pattern: &str, text: &str) -> (found: Result<
    Vec<Vec<Option<String>>>,
    regex::Error,
>)
    ensures
        regex_captures(pattern@, text@) == match found {
            Ok(matches) => Some(matches.deep_view()),
            Err(_) => None,
        },
{
    let expression = regex::Regex::new(pattern)?;
    let mut matches = Vec::new();
    for captures in expression.captures_iter(text) {
        let mut groups = Vec::new();
        for group in captures.iter() {
            groups.push(group.map(|found| found.as_str().to_string()));
        }
        matches.push(groups);
    }
    Ok(matches)
}

/// The key and the count that one match gives: its second group and the
/// number that its third group writes.
pub open spec fn entry_of(groups: Seq<Option<Seq<char>>>) -> Result<
    (Seq<char>, u32),
    LetterBagError,
> {
    if groups.len() < 3 || groups[1] is None || groups[2] is None {
        Err(LetterBagError::Group)
    } else {
        match count_of(groups[2]->0) {
            Some(count) => Ok((groups[1]->0, count)),
            None => Err(LetterBagError::Count),
        }
    }
}

/// The bag that a run of matches gives: each match sets the count under its
/// key, a later match overwriting an earlier one with the same key. The first
/// match that gives no entry decides the error.
pub open spec fn letter_count_of_matches(matches: Seq<Seq<Option<Seq<char>>>>) -> Result<
    Map<Seq<char>, u32>,
    LetterBagError,
>
    decreases matches.len(),
{
    if matches.len() == 0 {
        Ok(Map::empty())
    } else {
        match letter_count_of_matches(matches.drop_last()) {
            Err(error) => Err(error),
            Ok(counts) => match entry_of(matches.last()) {
                Err(error) => Err(error),
                Ok((letters, count)) => Ok(counts.insert(letters, count)),
            },
        }
    }
}

/// The bag that a search gives.
pub open spec fn letter_count_of(found: Option<Seq<Seq<Option<Seq<char>>>>>) -> Result<
    Map<Seq<char>, u32>,
    LetterBagError,
> {
    match found {
        None => Err(LetterBagError::Pattern),
        Some(matches) => letter_count_of_matches(matches),
    }
}

/// The bag that a description gives.
pub open spec fn letter_count_of_text(text: Seq<char>) -> Result<
    Map<Seq<char>, u32>,
    LetterBagError,
> {
    letter_count_of(regex_captures(LETTER_COUNT_PATTERN@, text))
}

/// An error among the first matches is the error of the whole run.
pub proof fn lemma_error_stays(matches: Seq<Seq<Option<Seq<char>>>>, n: int)
    requires
        0 <= n <= matches.len(),
        letter_count_of_matches(matches.take(n)) is Err,
    ensures
        letter_count_of_matches(matches) == letter_count_of_matches(matches.take(n)),
    decreases matches.len() - n,
{
    if n == matches.len() {
        assert(matches.take(n) == matches);
    } else {
        assert(matches.take(n + 1).drop_last() == matches.take(n));
        lemma_error_stays(matches, n + 1);
    }
}

/// What a reading of a bag gives, the bag taken as the map that it is.
pub open spec fn bag_view(bag: Result<LetterCount, LetterBagError>) -> Result<
    Map<Seq<char>, u32>,
    LetterBagError,
> {
    match bag {
        Ok(counts) => Ok(counts@),
        Err(error) => Err(error),
    }
}

/// Builds the bag from the matches of a token pattern: see
/// `letter_count_of_matches`.
pub fn letter_count_from_captures(matches: &Vec<Vec<Option<String>>>) -> (bag: Result<
    LetterCount,
    LetterBagError,
>)
    ensures
        bag_view(bag) == letter_count_of_matches(matches.deep_view()),
{
    let ghost all = matches.deep_view();
    let mut bag = LetterCount::new();
    let mut i: usize = 0;
    while i < matches.len()
        invariant
            i <= matches@.len(),
            all == matches.deep_view(),
            letter_count_of_matches(all.take(i as int)) == Ok::<
                Map<Seq<char>, u32>,
                LetterBagError,
            >(bag@),
        decreases matches@.len() - i,
    {
        let groups = &matches[i];
        proof {
            assert(all.take(i + 1).drop_last() == all.take(i as int));
            assert(all.take(i + 1).last() == groups.deep_view());
            if entry_of(groups.deep_view()) is Err {
                lemma_error_stays(all, i + 1);
            }
        }
        if groups.len() < 3 {
            return Err(LetterBagError::Group);
        }
        assert(groups.deep_view()[1] == groups@[1].deep_view());
        assert(groups.deep_view()[2] == groups@[2].deep_view());
        let letters = match &groups[1] {
            Some(text) => text,
            None => {
                return Err(LetterBagError::Group);
            },
        };
        let digits = match &groups[2] {
            Some(text) => text,
            None => {
                return Err(LetterBagError::Group);
            },
        };
        let count = match parse_count(digits.as_str()) {
            Some(count) => count,
            None => {
                return Err(LetterBagError::Count);
            },
        };
        bag.insert(letters.clone(), count);
        i += 1;
    }
    assert(all.take(i as int) == all);
    Ok(bag)
}

/// Reads a letter bag from `text` with a token pattern of one's own: the
/// second group of each match of `pattern` holds the letters, the third the
/// count. See `letter_count_of`.
pub fn parse_letter_count_with(pattern: &str, text: &str) -> (bag: Result<
    LetterCount,
    LetterBagError,
>)
    ensures
        bag_view(bag) == letter_count_of(regex_captures(pattern@, text@)),
{
    match captures_of(pattern, text) {
        Ok(matches) => letter_count_from_captures(&matches),
        Err(_) => Err(LetterBagError::Pattern),
    }
}

/// Reads a letter bag from its description: every token `letters:count` in
/// it sets the count under `letters`, a later token overwriting an earlier
/// one with the same letters. A count that is no number of 32 bits makes the
/// whole description fail.
pub fn parse_letter_count(text: &str) -> (bag: Result<LetterCount, LetterBagError>)
    ensures
        bag_view(bag) == letter_count_of_text(text@),
{
    parse_letter_count_with(LETTER_COUNT_PATTERN, text)
}

} // verus!
