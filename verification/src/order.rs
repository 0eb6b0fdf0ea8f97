//! What it means for one sequence to be another one, sorted, and what
//! follows from it for every function that sorts.

use vstd::prelude::*;
use vstd::relations::{sorted_by, total_ordering};
use vstd::seq_lib::{lemma_sorted_unique, to_multiset_contains, to_multiset_len};

verus! {

/// No element is greater than a later one.
pub open spec fn ascending(s: Seq<i32>) -> bool {
    forall|i: int, j: int| 0 <= i < j < s.len() ==> s[i] <= s[j]
}

/// `out` holds the values of `input`, each as often as `input` does, in
/// ascending order.
pub open spec fn is_sort_of(out: Seq<i32>, input: Seq<i32>) -> bool {
    &&& out.to_multiset() == input.to_multiset()
    &&& ascending(out)
}

/// Sorting keeps the length.
pub proof fn lemma_sort_keeps_length(input: Seq<i32>, out: Seq<i32>)
    requires
        is_sort_of(out, input),
    ensures
        out.len() == input.len(),
{
    to_multiset_len(out);
    to_multiset_len(input);
}

/// A sequence has one sorted arrangement only: whatever two sorts make of the
/// same input, they make the same of it.
pub proof fn lemma_sort_is_unique(input: Seq<i32>, a: Seq<i32>, b: Seq<i32>)
    requires
        is_sort_of(a, input),
        is_sort_of(b, input),
    ensures
        a == b,
{
    let leq = |x: i32, y: i32| x <= y;
    assert(total_ordering(leq));
    assert(sorted_by(a, leq));
    assert(sorted_by(b, leq));
    lemma_sorted_unique(a, b, leq);
}

/// Sorting a sequence that is in ascending order already leaves it as it is.
pub proof fn lemma_sort_keeps_ascending_input(input: Seq<i32>, out: Seq<i32>)
    requires
        ascending(input),
        is_sort_of(out, input),
    ensures
        out == input,
{
    lemma_sort_is_unique(input, out, input);
}

/// Sorting a sequence of at most one element leaves it as it is.
pub proof fn lemma_sort_keeps_short_input(input: Seq<i32>, out: Seq<i32>)
    requires
        input.len() <= 1,
        is_sort_of(out, input),
    ensures
        out == input,
{
    lemma_sort_keeps_ascending_input(input, out);
}

/// Sorting a sequence whose elements are all equal leaves it as it is.
pub proof fn lemma_sort_keeps_constant_input(input: Seq<i32>, out: Seq<i32>)
    requires
        forall|i: int, j: int| 0 <= i < input.len() && 0 <= j < input.len() ==> input[i] == input[j],
        is_sort_of(out, input),
    ensures
        out == input,
{
    lemma_sort_keeps_ascending_input(input, out);
}

/// The least `i32`, where the input holds it, is the first element of the
/// sorted sequence, and the greatest, where the input holds it, the last.
pub proof fn lemma_sort_puts_extremes_at_ends(input: Seq<i32>, out: Seq<i32>)
    requires
        is_sort_of(out, input),
    ensures
        input.contains(i32::MIN) ==> out.len() > 0 && out.first() == i32::MIN,
        input.contains(i32::MAX) ==> out.len() > 0 && out.last() == i32::MAX,
{
    if input.contains(i32::MIN) {
        to_multiset_contains(input, i32::MIN);
        to_multiset_contains(out, i32::MIN);
        let k = choose|k: int| 0 <= k < out.len() && out[k] == i32::MIN;
        assert(out[0] <= out[k]);
    }
    if input.contains(i32::MAX) {
        to_multiset_contains(input, i32::MAX);
        to_multiset_contains(out, i32::MAX);
        let k = choose|k: int| 0 <= k < out.len() && out[k] == i32::MAX;
        assert(out[k] <= out[out.len() - 1]);
    }
}

/// In the sorted sequence every negative element stands before every element
/// that is not negative.
pub proof fn lemma_sort_puts_negatives_first(input: Seq<i32>, out: Seq<i32>)
    requires
        is_sort_of(out, input),
    ensures
        forall|i: int, j: int|
            #![trigger out[i], out[j]]
            0 <= i < out.len() && 0 <= j < out.len() && out[i] < 0 && 0 <= out[j] ==> i < j,
{
}

} // verus!
