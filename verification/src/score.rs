//! The score of a word against a letter bag: how many of the word's letters
//! the bag can supply.

use crate::letter_count::{available, lemma_total_count_remove, total_count, LetterCount};
use crate::lines::lemma_chars_within_bytes;
use crate::sums::{
    lemma_sum_over_agree, lemma_sum_over_below, lemma_sum_over_insert, lemma_sum_over_remove,
    lemma_sum_over_subset, sum_over,
};
use vstd::hash_map::StringHashMap;
use vstd::prelude::*;
use vstd::seq_lib::seq_to_set_is_finite;
use vstd::string::StrSliceExecFns;
use vstd::utf8::encode_utf8;

verus! {

/// The length of a word: the number of bytes of its UTF-8 form, which for a
/// word of ASCII letters is the number of its letters.
pub open spec fn word_length(word: Seq<char>) -> nat {
    encode_utf8(word).len()
}

/// How many times `letter` stands in `word`.
pub open spec fn occurrences(word: Seq<char>, letter: char) -> nat
    decreases word.len(),
{
    if word.len() == 0 {
        0
    } else {
        occurrences(word.drop_last(), letter) + if word.last() == letter {
            1nat
        } else {
            0nat
        }
    }
}

/// How many copies of `letter` the word gets from the bag: as many as it
/// holds, but no more than the bag offers.
pub open spec fn covered(word: Seq<char>, counts: Map<Seq<char>, u32>, letter: char) -> nat {
    let needed = occurrences(word, letter);
    let offered = available(counts, letter);
    if needed <= offered {
        needed
    } else {
        offered
    }
}

/// `covered`, as a function of the letter.
pub open spec fn covered_by(word: Seq<char>, counts: Map<Seq<char>, u32>) -> spec_fn(char) -> nat {
    |letter: char| covered(word, counts, letter)
}

/// The score of `word` against a bag: over the distinct letters of the word,
/// the sum of the copies that the bag covers. This is the size of what the
/// word's letters and the bag's letters have in common, as multisets.
pub open spec fn score(word: Seq<char>, counts: Map<Seq<char>, u32>) -> nat {
    sum_over(word.to_set(), covered_by(word, counts))
}

/// A letter that a word does not hold occurs in it no times, and the other
/// way round.
pub proof fn lemma_occurrences_positive(word: Seq<char>, letter: char)
    ensures
        word.contains(letter) <==> occurrences(word, letter) > 0,
    decreases word.len(),
{
    if word.len() > 0 {
        let front = word.drop_last();
        lemma_occurrences_positive(front, letter);
        if front.contains(letter) {
            let i = choose|i: int| 0 <= i < front.len() && front[i] == letter;
            assert(word[i] == letter);
        }
        if word.contains(letter) && word.last() != letter {
            let i = choose|i: int| 0 <= i < word.len() && word[i] == letter;
            assert(front[i] == letter);
        }
        if word.last() == letter {
            assert(word[word.len() - 1] == letter);
        }
    }
}

/// A letter occurs in a word at most once for each place of the word.
pub proof fn lemma_occurrences_bound(word: Seq<char>, letter: char)
    ensures
        occurrences(word, letter) <= word.len(),
    decreases word.len(),
{
    if word.len() > 0 {
        lemma_occurrences_bound(word.drop_last(), letter);
    }
}

/// `occurrences`, as a function of the letter.
pub open spec fn occurrences_in(word: Seq<char>) -> spec_fn(char) -> nat {
    |letter: char| occurrences(word, letter)
}

/// Over its distinct letters, the occurrences in a word add up to its length.
pub proof fn lemma_occurrences_sum(word: Seq<char>)
    ensures
        sum_over(word.to_set(), occurrences_in(word)) == word.len(),
    decreases word.len(),
{
    broadcast use seq_to_set_is_finite;

    if word.len() == 0 {
        assert(word.to_set() =~= Set::<char>::empty());
    } else {
        let front = word.drop_last();
        let last = word.last();
        let f = occurrences_in(front);
        let g = occurrences_in(word);
        lemma_occurrences_sum(front);
        assert(front.push(last) =~= word);
        front.lemma_push_to_set_commute(last);
        lemma_occurrences_positive(front, last);
        if front.contains(last) {
            assert(word.to_set() =~= front.to_set());
            lemma_sum_over_remove(front.to_set(), f, last);
            lemma_sum_over_remove(front.to_set(), g, last);
            lemma_sum_over_agree(front.to_set().remove(last), f, g);
        } else {
            lemma_sum_over_insert(front.to_set(), g, last);
            lemma_sum_over_agree(front.to_set(), f, g);
        }
    }
}

/// `available`, as a function of the letter.
pub open spec fn available_in(counts: Map<Seq<char>, u32>) -> spec_fn(char) -> nat {
    |letter: char| available(counts, letter)
}

/// What a bag offers of any finite set of letters is no more than the bag
/// holds in all.
pub proof fn lemma_available_sum(letters: Set<char>, counts: Map<Seq<char>, u32>)
    requires
        letters.finite(),
        counts.dom().finite(),
    ensures
        sum_over(letters, available_in(counts)) <= total_count(counts),
    decreases letters.len(),
{
    if !letters.is_empty() {
        let c = letters.choose();
        let key = seq![c];
        let rest = counts.remove(key);
        lemma_total_count_remove(counts, key);
        lemma_available_sum(letters.remove(c), rest);
        assert forall|d: char| letters.remove(c).contains(d) implies #[trigger] available_in(
            counts,
        )(d) == available_in(rest)(d) by {
            assert(seq![d][0] == d);
            assert(seq![c][0] == c);
        }
        lemma_sum_over_agree(letters.remove(c), available_in(counts), available_in(rest));
    }
}

/// A score is at most the number of letters of the word, so at most its
/// length, and at most the number of letters in the bag.
pub proof fn lemma_score_bounds(word: Seq<char>, counts: Map<Seq<char>, u32>)
    requires
        counts.dom().finite(),
    ensures
        score(word, counts) <= word.len() <= word_length(word),
        score(word, counts) <= total_count(counts),
{
    broadcast use seq_to_set_is_finite;

    lemma_chars_within_bytes(word);
    lemma_occurrences_sum(word);
    lemma_sum_over_below(word.to_set(), covered_by(word, counts), occurrences_in(word));
    lemma_available_sum(word.to_set(), counts);
    lemma_sum_over_below(word.to_set(), covered_by(word, counts), available_in(counts));
}

/// A word scores nothing exactly when the bag offers none of its letters.
pub proof fn lemma_score_zero(word: Seq<char>, counts: Map<Seq<char>, u32>)
    ensures
        score(word, counts) == 0 <==> forall|i: int|
            0 <= i < word.len() ==> available(counts, #[trigger] word[i]) == 0,
{
    broadcast use seq_to_set_is_finite;

    let none = |letter: char| 0nat;
    if forall|i: int| 0 <= i < word.len() ==> available(counts, #[trigger] word[i]) == 0 {
        assert forall|c: char| word.to_set().contains(c) implies #[trigger] covered_by(
            word,
            counts,
        )(c) <= none(c) by {
            let i = choose|i: int| 0 <= i < word.len() && word[i] == c;
            assert(available(counts, word[i]) == 0);
        }
        lemma_sum_over_below(word.to_set(), covered_by(word, counts), none);
        lemma_sum_over_nothing(word.to_set());
    } else {
        let i = choose|i: int| 0 <= i < word.len() && available(counts, #[trigger] word[i]) != 0;
        let c = word[i];
        assert(word.contains(c));
        lemma_occurrences_positive(word, c);
        lemma_sum_over_remove(word.to_set(), covered_by(word, counts), c);
    }
}

/// A sum of nothing but zeros is zero.
proof fn lemma_sum_over_nothing(letters: Set<char>)
    requires
        letters.finite(),
    ensures
        sum_over(letters, |letter: char| 0nat) == 0,
    decreases letters.len(),
{
    if !letters.is_empty() {
        lemma_sum_over_nothing(letters.remove(letters.choose()));
    }
}

/// `letters` lists the distinct letters of `word`, each as a string of one
/// letter and as `distinct` has them, and `uses` holds under each how often
/// it occurs in `word`.
spec fn is_count_of(
    uses: Map<Seq<char>, usize>,
    letters: Seq<String>,
    distinct: Seq<char>,
    word: Seq<char>,
) -> bool {
    &&& letters.len() == distinct.len()
    &&& forall|k: int| 0 <= k < distinct.len() ==> (#[trigger] letters[k])@ == seq![distinct[k]]
    &&& distinct.no_duplicates()
    &&& distinct.to_set() =~= word.to_set()
    &&& forall|c: char|
        distinct.contains(c) ==> uses.contains_key(#[trigger] seq![c]) && uses[seq![c]]
            == occurrences(word, c)
}

/// Counts the letters of `text`: the distinct letters in the order in which
/// they first occur, and a table of how often each occurs.
fn count_letters(text: &str) -> (counted: (StringHashMap<usize>, Vec<String>, Ghost<Seq<char>>))
    ensures
        is_count_of(counted.0@, counted.1@, counted.2@, text@),
        text@.len() <= usize::MAX,
{
    let length = text.unicode_len();
    let mut uses: StringHashMap<usize> = StringHashMap::new();
    let mut letters: Vec<String> = Vec::new();
    let ghost mut distinct: Seq<char> = Seq::empty();
    let mut i: usize = 0;
    while i < length
        invariant
            length == text@.len(),
            i <= length,
            is_count_of(uses@, letters@, distinct, text@.take(i as int)),
            forall|c: char| !distinct.contains(c) ==> !uses@.contains_key(#[trigger] seq![c]),
        decreases length - i,
    {
        let letter = text.substring_char(i, i + 1);
        let ghost c = text@[i as int];
        let ghost before = text@.take(i as int);
        let ghost after = text@.take(i + 1);
        let ghost known = distinct;
        proof {
            assert(letter@ == seq![c]);
            assert(after.drop_last() == before);
            assert(before.push(c) == after);
            before.lemma_push_to_set_commute(c);
            lemma_occurrences_positive(before, c);
            lemma_occurrences_bound(before, c);
        }
        let seen: usize = match uses.get(letter) {
            Some(n) => {
                assert(known.contains(c));
                *n
            },
            None => {
                assert(!known.contains(c));
                assert(!before.to_set().contains(c));
                letters.push(letter.to_owned());
                proof {
                    distinct = known.push(c);
                    known.lemma_push_to_set_commute(c);
                    assert(distinct[distinct.len() - 1] == c);
                    assert forall|d: char| known.contains(d) implies distinct.contains(d) by {
                        let k = choose|k: int| 0 <= k < known.len() && known[k] == d;
                        assert(distinct[k] == d);
                    }
                }
                0
            },
        };
        assert(seen == occurrences(before, c));
        assert(distinct.contains(c));
        assert(forall|d: char| known.contains(d) ==> distinct.contains(d));
        uses.insert(letter.to_owned(), seen + 1);
        proof {
            assert forall|d: char| distinct.contains(d) implies uses@.contains_key(
                #[trigger] seq![d],
            ) && uses@[seq![d]] == occurrences(after, d) by {
                assert(seq![d][0] == d);
                assert(seq![c][0] == c);
                if d != c {
                    assert(known.to_set().contains(d));
                }
            }
            assert forall|d: char| !distinct.contains(d) implies !uses@.contains_key(
                #[trigger] seq![d],
            ) by {
                assert(seq![d][0] == d);
                assert(seq![c][0] == c);
            }
        }
        i += 1;
    }
    assert(text@.take(length as int) == text@);
    (uses, letters, Ghost(distinct))
}

/// The score of `word` against the bag `letter_count`.
///
/// The word's letters are counted first; then each distinct letter adds the
/// smaller of its count in the word and its count in the bag.
pub fn get_word_score(word: String, letter_count: &LetterCount) -> (points: usize)
    ensures
        points == score(word@, letter_count@),
        points <= word@.len() <= word_length(word@),
        points <= total_count(letter_count@),
{
    broadcast use seq_to_set_is_finite;

    let (uses, letters, Ghost(distinct)) = count_letters(word.as_str());
    let ghost gain = covered_by(word@, letter_count@);
    let mut points: usize = 0;
    let mut j: usize = 0;
    proof {
        letter_count.lemma_finite();
        lemma_score_bounds(word@, letter_count@);
        assert(distinct.take(0).to_set() =~= Set::<char>::empty());
    }
    while j < letters.len()
        invariant
            j <= letters@.len(),
            is_count_of(uses@, letters@, distinct, word@),
            gain == covered_by(word@, letter_count@),
            points == sum_over(distinct.take(j as int).to_set(), gain),
            sum_over(word@.to_set(), gain) <= word@.len() <= usize::MAX,
        decreases letters@.len() - j,
    {
        let key = letters[j].as_str();
        let ghost c = distinct[j as int];
        proof {
            assert(key@ == seq![c]);
            assert(distinct.contains(c));
        }
        let needed: usize = match uses.get(key) {
            Some(n) => *n,
            None => 0,
        };
        let offered: usize = match letter_count.get(key) {
            Some(n) => n as usize,
            None => 0,
        };
        proof {
            let done = distinct.take(j as int);
            let next = distinct.take(j + 1);
            assert(done.push(c) == next);
            done.lemma_push_to_set_commute(c);
            assert(!done.to_set().contains(c)) by {
                if done.contains(c) {
                    let k = choose|k: int| 0 <= k < done.len() && done[k] == c;
                    assert(distinct[k] == distinct[j as int]);
                }
            }
            lemma_sum_over_insert(done.to_set(), gain, c);
            assert(next.to_set().subset_of(word@.to_set())) by {
                assert forall|d: char| next.to_set().contains(d) implies word@.to_set().contains(
                    d,
                ) by {
                    let k = choose|k: int| 0 <= k < next.len() && next[k] == d;
                    assert(distinct[k] == d);
                    assert(distinct.to_set().contains(d));
                }
            }
            lemma_sum_over_subset(next.to_set(), word@.to_set(), gain);
        }
        points = points + if needed <= offered {
            needed
        } else {
            offered
        };
        j += 1;
    }
    assert(distinct.take(j as int) == distinct);
    points
}

} // verus!
