//! The choice of the word that fits a letter bag best.

use crate::letter_count::{available, total_count, LetterCount};
use crate::score::{get_word_score, lemma_score_zero, score, word_length};
use vstd::prelude::*;

verus! {

/// How far the length of a word is from the number of letters in the bag.
pub open spec fn difference(word: Seq<char>, counts: Map<Seq<char>, u32>) -> nat {
    let length = word_length(word);
    let offered = total_count(counts);
    if length >= offered {
        (length - offered) as nat
    } else {
        (offered - length) as nat
    }
}

/// The order of preference among the words of a dictionary: the word at `a`
/// goes before the word at `b` where it scores more; at equal scores, where
/// its length is closer to the size of the bag; and where that is equal too,
/// where it stands earlier.
pub open spec fn preferred(
    dictionary: Seq<Seq<char>>,
    counts: Map<Seq<char>, u32>,
    a: int,
    b: int,
) -> bool {
    let score_a = score(dictionary[a], counts);
    let score_b = score(dictionary[b], counts);
    let gap_a = difference(dictionary[a], counts);
    let gap_b = difference(dictionary[b], counts);
    score_a > score_b || (score_a == score_b && (gap_a < gap_b || (gap_a == gap_b && a < b)))
}

/// The word at `i` is the best match among the first `n` words: it scores
/// above zero and goes before each of the others.
pub open spec fn is_best_of_first(
    dictionary: Seq<Seq<char>>,
    counts: Map<Seq<char>, u32>,
    n: int,
    i: int,
) -> bool {
    &&& 0 <= i < n <= dictionary.len()
    &&& score(dictionary[i], counts) > 0
    &&& forall|j: int| 0 <= j < n && j != i ==> preferred(dictionary, counts, i, j)
}

/// The word at `i` is the best match of the dictionary.
pub open spec fn is_best_match(
    dictionary: Seq<Seq<char>>,
    counts: Map<Seq<char>, u32>,
    i: int,
) -> bool {
    is_best_of_first(dictionary, counts, dictionary.len() as int, i)
}

/// No word of the dictionary scores above zero.
pub open spec fn no_match(dictionary: Seq<Seq<char>>, counts: Map<Seq<char>, u32>) -> bool {
    forall|i: int| 0 <= i < dictionary.len() ==> score(#[trigger] dictionary[i], counts) == 0
}

/// The word that the dictionary's best match is, where it has one.
pub open spec fn best_match(dictionary: Seq<Seq<char>>, counts: Map<Seq<char>, u32>) -> Option<
    Seq<char>,
> {
    if exists|i: int| is_best_match(dictionary, counts, i) {
        Some(dictionary[choose|i: int| is_best_match(dictionary, counts, i)])
    } else {
        None
    }
}

/// A dictionary has at most one best match: the choice is a function of the
/// dictionary, in its order, and of the bag.
pub proof fn lemma_best_match_unique(
    dictionary: Seq<Seq<char>>,
    counts: Map<Seq<char>, u32>,
    i: int,
    j: int,
)
    requires
        is_best_match(dictionary, counts, i),
        is_best_match(dictionary, counts, j),
    ensures
        i == j,
{
    if i != j {
        assert(preferred(dictionary, counts, i, j));
        assert(preferred(dictionary, counts, j, i));
    }
}

/// A dictionary has a best match exactly when one of its words scores above
/// zero.
pub proof fn lemma_best_match_or_none(dictionary: Seq<Seq<char>>, counts: Map<Seq<char>, u32>)
    ensures
        no_match(dictionary, counts) <==> !exists|i: int| is_best_match(dictionary, counts, i),
{
    if no_match(dictionary, counts) {
        if exists|i: int| is_best_match(dictionary, counts, i) {
            let i = choose|i: int| is_best_match(dictionary, counts, i);
            assert(score(dictionary[i], counts) == 0);
        }
    } else {
        let i = choose|i: int|
            0 <= i < dictionary.len() && score(#[trigger] dictionary[i], counts) != 0;
        assert(score(dictionary[i], counts) > 0);
        lemma_best_of_first_exists(dictionary, counts, dictionary.len() as int);
        let b = choose|b: int| is_best_of_first(dictionary, counts, dictionary.len() as int, b);
        assert(is_best_match(dictionary, counts, b));
    }
}

/// Among the first `n` words, if one scores above zero, one is the best.
proof fn lemma_best_of_first_exists(
    dictionary: Seq<Seq<char>>,
    counts: Map<Seq<char>, u32>,
    n: int,
)
    requires
        0 <= n <= dictionary.len(),
        exists|i: int| 0 <= i < n && score(#[trigger] dictionary[i], counts) > 0,
    ensures
        exists|i: int| is_best_of_first(dictionary, counts, n, i),
    decreases n,
{
    let last = n - 1;
    if exists|i: int| 0 <= i < last && score(#[trigger] dictionary[i], counts) > 0 {
        lemma_best_of_first_exists(dictionary, counts, last);
        let b = choose|i: int| is_best_of_first(dictionary, counts, last, i);
        if preferred(dictionary, counts, last, b) {
            assert forall|j: int| 0 <= j < n && j != last implies preferred(
                dictionary,
                counts,
                last,
                j,
            ) by {
                if j != b {
                    assert(preferred(dictionary, counts, b, j));
                }
            }
            assert(is_best_of_first(dictionary, counts, n, last));
        } else {
            assert(is_best_of_first(dictionary, counts, n, b));
        }
    } else {
        let w = choose|i: int| 0 <= i < n && score(#[trigger] dictionary[i], counts) > 0;
        assert(w == last);
        assert forall|j: int| 0 <= j < n && j != last implies preferred(
            dictionary,
            counts,
            last,
            j,
        ) by {
            assert(score(dictionary[j], counts) == 0);
        }
        assert(is_best_of_first(dictionary, counts, n, last));
    }
}

/// An empty dictionary has no best match.
pub proof fn lemma_empty_dictionary(dictionary: Seq<Seq<char>>, counts: Map<Seq<char>, u32>)
    requires
        dictionary.len() == 0,
    ensures
        no_match(dictionary, counts),
        best_match(dictionary, counts) is None,
{
    lemma_best_match_or_none(dictionary, counts);
}

/// A dictionary of which no word holds a letter that the bag offers has no
/// best match.
pub proof fn lemma_no_shared_letter(dictionary: Seq<Seq<char>>, counts: Map<Seq<char>, u32>)
    requires
        forall|i: int, k: int|
            0 <= i < dictionary.len() && 0 <= k < dictionary[i].len() ==> available(
                counts,
                #[trigger] dictionary[i][k],
            ) == 0,
    ensures
        no_match(dictionary, counts),
        best_match(dictionary, counts) is None,
{
    assert forall|i: int| 0 <= i < dictionary.len() implies score(
        #[trigger] dictionary[i],
        counts,
    ) == 0 by {
        lemma_score_zero(dictionary[i], counts);
    }
    lemma_best_match_or_none(dictionary, counts);
}

/// The tie-break: a word that scores as much as the best match is no closer
/// in length to the size of the bag, and where it is as close, it stands
/// later in the dictionary.
pub proof fn lemma_tie_break(
    dictionary: Seq<Seq<char>>,
    counts: Map<Seq<char>, u32>,
    best: int,
    other: int,
)
    requires
        is_best_match(dictionary, counts, best),
        0 <= other < dictionary.len(),
        score(dictionary[other], counts) == score(dictionary[best], counts),
    ensures
        difference(dictionary[best], counts) <= difference(dictionary[other], counts),
        difference(dictionary[best], counts) == difference(dictionary[other], counts) ==> best
            <= other,
{
    if other != best {
        assert(preferred(dictionary, counts, best, other));
    }
}

/// No word scores more than the best match.
pub proof fn lemma_best_match_scores_most(
    dictionary: Seq<Seq<char>>,
    counts: Map<Seq<char>, u32>,
    best: int,
    other: int,
)
    requires
        is_best_match(dictionary, counts, best),
        0 <= other < dictionary.len(),
    ensures
        score(dictionary[other], counts) <= score(dictionary[best], counts),
{
    if other != best {
        assert(preferred(dictionary, counts, best, other));
    }
}

/// The word of `words` that fits the bag best, or `None` where no word
/// shares a letter with the bag.
///
/// The words are taken in their order. A word replaces the best one so far
/// where it scores more, or scores as much and is closer in length to the
/// size of the bag; a word that scores nothing is never chosen.
pub fn find_best_match(words: &Vec<String>, letter_count: &LetterCount) -> (best: Option<String>)
    ensures
        best.deep_view() == best_match(words.deep_view(), letter_count@),
        match best {
            Some(word) => exists|i: int|
                is_best_match(words.deep_view(), letter_count@, i) && word@
                    == #[trigger] words.deep_view()[i],
            None => no_match(words.deep_view(), letter_count@),
        },
        words@.len() == 0 ==> best is None,
        no_match(words.deep_view(), letter_count@) ==> best is None,
{
    let ghost dictionary = words.deep_view();
    let ghost counts = letter_count@;
    let offered = letter_count.total();
    let mut leader: Option<(usize, usize, u128)> = None;
    let mut i: usize = 0;
    while i < words.len()
        invariant
            i <= words@.len(),
            dictionary == words.deep_view(),
            counts == letter_count@,
            offered == total_count(counts),
            match leader {
                Some((at, top, closest)) => {
                    &&& is_best_of_first(dictionary, counts, i as int, at as int)
                    &&& top == score(dictionary[at as int], counts)
                    &&& closest == difference(dictionary[at as int], counts)
                },
                None => forall|k: int| 0 <= k < i ==> score(#[trigger] dictionary[k], counts) == 0,
            },
        decreases words@.len() - i,
    {
        let points = get_word_score(words[i].clone(), letter_count);
        let length = words[i].as_str().as_bytes().len() as u128;
        let gap = if length >= offered {
            length - offered
        } else {
            offered - length
        };
        assert(dictionary[i as int] == words@[i as int]@);
        assert(gap == difference(dictionary[i as int], counts));
        let better = match leader {
            Some((_, top, closest)) => points > top || (points == top && gap < closest),
            None => points > 0,
        };
        if better {
            proof {
                assert forall|j: int| 0 <= j < i + 1 && j != i implies preferred(
                    dictionary,
                    counts,
                    i as int,
                    j,
                ) by {
                    match leader {
                        Some((at, _, _)) => {
                            if j != at {
                                assert(preferred(dictionary, counts, at as int, j));
                            }
                        },
                        None => {
                            assert(score(dictionary[j], counts) == 0);
                        },
                    }
                }
            }
            leader = Some((i, points, gap));
        } else {
            proof {
                match leader {
                    Some((at, _, _)) => {
                        assert(preferred(dictionary, counts, at as int, i as int));
                    },
                    None => {},
                }
            }
        }
        i += 1;
    }
    match leader {
        Some((at, _, _)) => {
            proof {
                assert(is_best_match(dictionary, counts, at as int));
                assert(score(dictionary[at as int], counts) > 0);
                let chosen = choose|i: int| is_best_match(dictionary, counts, i);
                lemma_best_match_unique(dictionary, counts, at as int, chosen);
            }
            Some(words[at].clone())
        },
        None => {
            proof {
                lemma_best_match_or_none(dictionary, counts);
            }
            None
        },
    }
}

} // verus!
