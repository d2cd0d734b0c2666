//! Sums of natural numbers over finite sets, and the facts about them that the
//! scoring proofs rest on.

use vstd::prelude::*;
use vstd::set_lib::lemma_set_subset_finite;

verus! {

/// The sum of `f(a)` over every member `a` of the finite set `s`.
pub open spec fn sum_over<A>(s: Set<A>, f: spec_fn(A) -> nat) -> nat
    decreases s.len(),
    when s.finite()
{
    if s.is_empty() {
        0
    } else {
        let a = s.choose();
        f(a) + sum_over(s.remove(a), f)
    }
}

/// Any member may be taken out of the sum first: the order in which the
/// members are visited does not matter.
pub proof fn lemma_sum_over_remove<A>(s: Set<A>, f: spec_fn(A) -> nat, a: A)
    requires
        s.finite(),
        s.contains(a),
    ensures
        sum_over(s, f) == f(a) + sum_over(s.remove(a), f),
    decreases s.len(),
{
    let c = s.choose();
    if c != a {
        lemma_sum_over_remove(s.remove(c), f, a);
        lemma_sum_over_remove(s.remove(a), f, c);
        assert(s.remove(c).remove(a) =~= s.remove(a).remove(c));
    }
}

/// Adding a new member adds its term.
pub proof fn lemma_sum_over_insert<A>(s: Set<A>, f: spec_fn(A) -> nat, a: A)
    requires
        s.finite(),
        !s.contains(a),
    ensures
        sum_over(s.insert(a), f) == f(a) + sum_over(s, f),
{
    lemma_sum_over_remove(s.insert(a), f, a);
    assert(s.insert(a).remove(a) =~= s);
}

/// Two functions that agree on every member have the same sum.
pub proof fn lemma_sum_over_agree<A>(s: Set<A>, f: spec_fn(A) -> nat, g: spec_fn(A) -> nat)
    requires
        s.finite(),
        forall|a: A| s.contains(a) ==> #[trigger] f(a) == g(a),
    ensures
        sum_over(s, f) == sum_over(s, g),
    decreases s.len(),
{
    if !s.is_empty() {
        let c = s.choose();
        lemma_sum_over_agree(s.remove(c), f, g);
        assert(f(c) == g(c));
    }
}

/// A function that is nowhere larger than another has no larger a sum.
pub proof fn lemma_sum_over_below<A>(s: Set<A>, f: spec_fn(A) -> nat, g: spec_fn(A) -> nat)
    requires
        s.finite(),
        forall|a: A| s.contains(a) ==> #[trigger] f(a) <= g(a),
    ensures
        sum_over(s, f) <= sum_over(s, g),
    decreases s.len(),
{
    if !s.is_empty() {
        let c = s.choose();
        lemma_sum_over_below(s.remove(c), f, g);
        assert(f(c) <= g(c));
    }
}

/// A sum over part of a set is no larger than the sum over all of it.
pub proof fn lemma_sum_over_subset<A>(part: Set<A>, all: Set<A>, f: spec_fn(A) -> nat)
    requires
        all.finite(),
        part.subset_of(all),
    ensures
        part.finite(),
        sum_over(part, f) <= sum_over(all, f),
    decreases all.len(),
{
    lemma_set_subset_finite(all, part);
    if all.is_empty() {
        assert(part =~= all);
    } else {
        let c = all.choose();
        lemma_sum_over_remove(all, f, c);
        if part.contains(c) {
            lemma_sum_over_remove(part, f, c);
            lemma_sum_over_subset(part.remove(c), all.remove(c), f);
        } else {
            lemma_sum_over_subset(part, all.remove(c), f);
        }
    }
}

} // verus!
