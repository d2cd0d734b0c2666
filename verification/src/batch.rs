//! The evaluation of test cases against a dictionary, one by one and as a
//! batch, and the share of them that come out right.

use crate::matcher::{best_match, find_best_match};
use crate::parser::{letter_count_of_text, parse_letter_count};
use vstd::prelude::*;

verus! {

/// The test case comes out right: its description gives a letter bag, and
/// the best match of the dictionary for that bag is the expected word,
/// letter for letter.
pub open spec fn is_correct(case: (Seq<char>, Seq<char>), dictionary: Seq<Seq<char>>) -> bool {
    match letter_count_of_text(case.0) {
        Ok(counts) => best_match(dictionary, counts) == Some(case.1),
        Err(_) => false,
    }
}

/// Evaluates one test case, a description of a letter bag and the expected
/// word: see `is_correct`. A description that gives no bag, or a dictionary
/// without a match, makes the case come out wrong.
pub fn run_test_case(test_case: &(String, String), words: &Vec<String>) -> (passed: bool)
    ensures
        passed == is_correct(test_case.deep_view(), words.deep_view()),
        words@.len() == 0 ==> !passed,
{
    match parse_letter_count(test_case.0.as_str()) {
        Ok(letter_count) => match find_best_match(words, &letter_count) {
            Some(best) => best == test_case.1,
            None => false,
        },
        Err(_) => false,
    }
}

/// How many of the test cases come out right.
pub open spec fn passed(cases: Seq<(Seq<char>, Seq<char>)>, dictionary: Seq<Seq<char>>) -> nat
    decreases cases.len(),
{
    if cases.len() == 0 {
        0
    } else {
        passed(cases.drop_last(), dictionary) + if is_correct(cases.last(), dictionary) {
            1nat
        } else {
            0nat
        }
    }
}

/// The share of `correct` in `total`, in hundredths of a percent and rounded
/// to the nearest, a half upwards. It is undefined where `total` is zero.
pub open spec fn accuracy_of(total: nat, correct: nat) -> Option<nat> {
    if total == 0 {
        None
    } else {
        Some((20000 * correct + total) / (2 * total))
    }
}

/// The outcome of a batch: how many test cases were evaluated, and how many
/// of them came out right.
#[derive(Clone, Copy, Debug, PartialEq, Eq)]
pub struct BatchOutcome {
    total: usize,
    correct: usize,
}

impl View for BatchOutcome {
    type V = (nat, nat);

    /// The number of test cases, and the number of those that came out right.
    closed spec fn view(&self) -> (nat, nat) {
        (self.total as nat, self.correct as nat)
    }
}

impl BatchOutcome {
    #[verifier::type_invariant]
    spec fn well_formed(self) -> bool {
        self.correct <= self.total
    }

    /// The outcome of the batch without a test case.
    pub fn new() -> (outcome: Self)
        ensures
            outcome@ == (0nat, 0nat),
    {
        BatchOutcome { total: 0, correct: 0 }
    }

    /// The number of test cases that were evaluated.
    pub fn total(&self) -> (total: usize)
        ensures
            total == self@.0,
    {
        self.total
    }

    /// The number of test cases that came out right; it is at most `total`.
    pub fn correct(&self) -> (correct: usize)
        ensures
            correct == self@.1,
            correct <= self@.0,
    {
        proof {
            use_type_invariant(self);
        }
        self.correct
    }

    /// The outcome of two batches taken together, or `None` where the number
    /// of their test cases is beyond `usize`.
    pub fn merge(&self, other: &BatchOutcome) -> (both: Option<BatchOutcome>)
        ensures
            match both {
                Some(outcome) => outcome@ == (self@.0 + other@.0, self@.1 + other@.1),
                None => self@.0 + other@.0 > usize::MAX,
            },
    {
        proof {
            use_type_invariant(self);
            use_type_invariant(other);
        }
        match self.total.checked_add(other.total) {
            Some(total) => Some(BatchOutcome { total, correct: self.correct + other.correct }),
            None => None,
        }
    }

    /// The accuracy of the batch: see `accuracy_of`. A batch without a test
    /// case has none.
    pub fn accuracy_hundredths(&self) -> (accuracy: Option<u32>)
        ensures
            match accuracy {
                Some(share) => accuracy_of(self@.0, self@.1) == Some(share as nat) && share
                    <= 10000,
                None => self@.0 == 0,
            },
    {
        proof {
            use_type_invariant(self);
        }
        if self.total == 0 {
            return None;
        }
        let total = self.total as u128;
        let correct = self.correct as u128;
        let share = (20000 * correct + total) / (2 * total);
        assert(share <= 10000) by (nonlinear_arith)
            requires
                share == (20000 * correct + total) / (2 * total),
                correct <= total,
                total > 0,
        ;
        Some(share as u32)
    }
}

/// The outcome of evaluating every test case of `cases`.
pub open spec fn outcome_of(cases: Seq<(Seq<char>, Seq<char>)>, dictionary: Seq<Seq<char>>) -> (
    nat,
    nat,
) {
    (cases.len(), passed(cases, dictionary))
}

/// Evaluates the test cases one after the other and counts: see
/// `outcome_of`.
pub fn evaluate_all(test_cases: &[(String, String)], words: &Vec<String>) -> (outcome:
    BatchOutcome)
    ensures
        outcome@ == outcome_of(test_cases.deep_view(), words.deep_view()),
{
    let ghost cases = test_cases.deep_view();
    let ghost dictionary = words.deep_view();
    let mut correct: usize = 0;
    let mut i: usize = 0;
    while i < test_cases.len()
        invariant
            i <= test_cases@.len(),
            cases == test_cases.deep_view(),
            dictionary == words.deep_view(),
            correct == passed(cases.take(i as int), dictionary),
            correct <= i,
        decreases test_cases@.len() - i,
    {
        proof {
            assert(cases.take(i + 1).drop_last() == cases.take(i as int));
            assert(cases.take(i + 1).last() == test_cases@[i as int].deep_view());
        }
        if run_test_case(&test_cases[i], words) {
            correct += 1;
        }
        i += 1;
    }
    assert(cases.take(i as int) == cases);
    BatchOutcome { total: test_cases.len(), correct }
}

/// The right answers of two runs of test cases add up to those of the runs
/// joined.
pub proof fn lemma_passed_concat(
    first: Seq<(Seq<char>, Seq<char>)>,
    second: Seq<(Seq<char>, Seq<char>)>,
    dictionary: Seq<Seq<char>>,
)
    ensures
        passed(first + second, dictionary) == passed(first, dictionary) + passed(
            second,
            dictionary,
        ),
    decreases second.len(),
{
    if second.len() == 0 {
        assert(first + second == first);
    } else {
        lemma_passed_concat(first, second.drop_last(), dictionary);
        assert((first + second).drop_last() == first + second.drop_last());
    }
}

/// Taking one test case out lowers the count by one where that case came out
/// right, and not at all where it did not.
proof fn lemma_passed_remove(
    cases: Seq<(Seq<char>, Seq<char>)>,
    at: int,
    dictionary: Seq<Seq<char>>,
)
    requires
        0 <= at < cases.len(),
    ensures
        passed(cases, dictionary) == passed(cases.remove(at), dictionary) + if is_correct(
            cases[at],
            dictionary,
        ) {
            1nat
        } else {
            0nat
        },
{
    let front = cases.take(at);
    let one = seq![cases[at]];
    let back = cases.skip(at + 1);
    assert(cases == front + one + back);
    assert(cases.remove(at) == front + back);
    lemma_passed_concat(front, one, dictionary);
    lemma_passed_concat(front + one, back, dictionary);
    lemma_passed_concat(front, back, dictionary);
    assert(one.drop_last() == Seq::<(Seq<char>, Seq<char>)>::empty());
    assert(passed(one.drop_last(), dictionary) == 0);
}

/// The outcome of a batch does not depend on the order of its test cases:
/// two runs that hold the same test cases, each as often as the other, have
/// the same outcome and so the same accuracy.
pub proof fn lemma_outcome_of_any_order(
    first: Seq<(Seq<char>, Seq<char>)>,
    second: Seq<(Seq<char>, Seq<char>)>,
    dictionary: Seq<Seq<char>>,
)
    requires
        first.to_multiset() == second.to_multiset(),
    ensures
        outcome_of(first, dictionary) == outcome_of(second, dictionary),
        accuracy_of(first.len(), passed(first, dictionary)) == accuracy_of(
            second.len(),
            passed(second, dictionary),
        ),
    decreases first.len(),
{
    broadcast use vstd::seq_lib::group_to_multiset_ensures;

    first.to_multiset_ensures();
    second.to_multiset_ensures();
    if first.len() > 0 {
        let case = first.last();
        let front = first.drop_last();
        assert(front.push(case) == first);
        assert(first.to_multiset().count(case) > 0);
        assert(second.contains(case));
        let at = choose|at: int| 0 <= at < second.len() && second[at] == case;
        let rest = second.remove(at);
        assert(front.to_multiset() =~= first.to_multiset().remove(case));
        assert(rest.to_multiset() =~= second.to_multiset().remove(case));
        lemma_outcome_of_any_order(front, rest, dictionary);
        lemma_passed_remove(second, at, dictionary);
    }
}

/// A batch may be evaluated in parts: the outcome of two runs joined is the
/// sum of their outcomes, whichever comes first.
pub proof fn lemma_outcome_of_parts(
    first: Seq<(Seq<char>, Seq<char>)>,
    second: Seq<(Seq<char>, Seq<char>)>,
    dictionary: Seq<Seq<char>>,
)
    ensures
        outcome_of(first + second, dictionary) == (
            outcome_of(first, dictionary).0 + outcome_of(second, dictionary).0,
            outcome_of(first, dictionary).1 + outcome_of(second, dictionary).1,
        ),
        outcome_of(first + second, dictionary) == outcome_of(second + first, dictionary),
{
    lemma_passed_concat(first, second, dictionary);
    lemma_passed_concat(second, first, dictionary);
}

} // verus!
