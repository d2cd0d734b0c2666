//! The letter bag: how many copies of each letter are available.

use crate::sums::{lemma_sum_over_agree, lemma_sum_over_remove, sum_over};
use vstd::hash_map::StringHashMap;
use vstd::prelude::*;

verus! {

/// The number of letters in a bag: the sum of all its counts.
pub open spec fn total_count(counts: Map<Seq<char>, u32>) -> nat {
    sum_over(counts.dom(), |letter: Seq<char>| counts[letter] as nat)
}

/// How many copies of `letter` a bag offers: the count under the key made of
/// that one letter, and none where there is no such key.
pub open spec fn available(counts: Map<Seq<char>, u32>, letter: char) -> nat {
    if counts.contains_key(seq![letter]) {
        counts[seq![letter]] as nat
    } else {
        0
    }
}

/// What a key contributes to the total of a bag.
pub open spec fn count_under(counts: Map<Seq<char>, u32>, letter: Seq<char>) -> nat {
    if counts.contains_key(letter) {
        counts[letter] as nat
    } else {
        0
    }
}

/// Taking a key out of a bag lowers the total by that key's count.
pub proof fn lemma_total_count_remove(counts: Map<Seq<char>, u32>, letter: Seq<char>)
    requires
        counts.dom().finite(),
    ensures
        total_count(counts) == count_under(counts, letter) + total_count(counts.remove(letter)),
{
    let rest = counts.remove(letter);
    let f = |k: Seq<char>| counts[k] as nat;
    let g = |k: Seq<char>| rest[k] as nat;
    if counts.contains_key(letter) {
        lemma_sum_over_remove(counts.dom(), f, letter);
        assert(rest.dom() =~= counts.dom().remove(letter));
        assert forall|k: Seq<char>| rest.dom().contains(k) implies #[trigger] f(k) == g(k) by {}
        lemma_sum_over_agree(rest.dom(), f, g);
    } else {
        assert(rest =~= counts);
    }
}

/// Setting a key replaces what it contributed before by the new count.
pub proof fn lemma_total_count_insert(counts: Map<Seq<char>, u32>, letter: Seq<char>, count: u32)
    requires
        counts.dom().finite(),
    ensures
        total_count(counts.insert(letter, count)) + count_under(counts, letter) == total_count(
            counts,
        ) + count,
{
    let after = counts.insert(letter, count);
    lemma_total_count_remove(counts, letter);
    lemma_total_count_remove(after, letter);
    assert(after.remove(letter) =~= counts.remove(letter));
}

/// No count exceeds `u32::MAX`, so the total is at most that for each key.
pub proof fn lemma_total_count_bound(counts: Map<Seq<char>, u32>)
    requires
        counts.dom().finite(),
    ensures
        total_count(counts) <= counts.dom().len() * u32::MAX,
    decreases counts.dom().len(),
{
    if counts.dom().is_empty() {
    } else {
        let letter = counts.dom().choose();
        lemma_total_count_remove(counts, letter);
        lemma_total_count_bound(counts.remove(letter));
        assert(counts.remove(letter).dom() =~= counts.dom().remove(letter));
        assert((counts.dom().len() - 1) * u32::MAX + u32::MAX == counts.dom().len() * u32::MAX)
            by (nonlinear_arith);
    }
}

/// A bag of letters: a count for each key, a key being a run of letters as it
/// was written in the bag's description.
pub struct LetterCount {
    counts: StringHashMap<u32>,
    total: u128,
}

impl View for LetterCount {
    type V = Map<Seq<char>, u32>;

    /// The bag as a map from key to count. No table with infinitely many
    /// keys exists at run time; the view takes such a value for the empty
    /// bag, so that every view has a finite domain.
    closed spec fn view(&self) -> Map<Seq<char>, u32> {
        if self.counts@.dom().finite() {
            self.counts@
        } else {
            Map::empty()
        }
    }
}

impl LetterCount {
    #[verifier::type_invariant]
    spec fn well_formed(self) -> bool {
        &&& self.counts@.dom().finite()
        &&& self.total == total_count(self.counts@)
    }

    /// Every bag holds finitely many keys.
    pub proof fn lemma_finite(&self)
        ensures
            self@.dom().finite(),
    {
    }

    /// The empty bag.
    pub fn new() -> (bag: Self)
        ensures
            bag@ == Map::<Seq<char>, u32>::empty(),
    {
        LetterCount { counts: StringHashMap::new(), total: 0 }
    }

    /// The count under `letter`, if the bag has that key.
    pub fn get(&self, letter: &str) -> (count: Option<u32>)
        ensures
            count == if self@.contains_key(letter@) {
                Some(self@[letter@])
            } else {
                None
            },
    {
        proof {
            use_type_invariant(self);
        }
        match self.counts.get(letter) {
            Some(n) => Some(*n),
            None => None,
        }
    }

    /// The number of letters in the bag.
    pub fn total(&self) -> (sum: u128)
        ensures
            sum == total_count(self@),
    {
        proof {
            use_type_invariant(self);
        }
        self.total
    }

    /// Sets the count under `letter`; a count that the key had before is
    /// forgotten.
    pub fn insert(&mut self, letter: String, count: u32)
        ensures
            final(self)@ == old(self)@.insert(letter@, count),
    {
        proof {
            use_type_invariant(&*self);
        }
        // The table and its total change together: the bag is taken apart
        // and put together again.
        let mut taken = LetterCount::new();
        std::mem::swap(self, &mut taken);
        let LetterCount { mut counts, total } = taken;
        // The number of keys fits in a `usize`, so the total stays far below
        // the end of `u128`.
        let keys = counts.len();
        let before = match counts.get(letter.as_str()) {
            Some(n) => *n,
            None => 0,
        };
        proof {
            lemma_total_count_insert(counts@, letter@, count);
            lemma_total_count_remove(counts@, letter@);
            lemma_total_count_bound(counts@);
            assert(keys * u32::MAX <= usize::MAX * u32::MAX) by (nonlinear_arith)
                requires
                    keys <= usize::MAX,
            ;
        }
        counts.insert(letter, count);
        *self = LetterCount { counts, total: total - before as u128 + count as u128 };
    }
}

} // verus!
