//! One pass of a radix sort, as a function on sequences: the elements are
//! grouped by one digit, each group in the order in which its elements came.

use vstd::prelude::*;
use vstd::multiset::*;
use vstd::seq_lib::*;
use crate::digit::{biased, digit_of, weight};
use crate::order::is_sort_of;

verus! {

/// The elements of `s` whose digit `n` is `b`, in their order in `s`.
pub open spec fn bucket(s: Seq<i32>, n: int, b: int) -> Seq<i32>
    decreases s.len(),
{
    if s.len() == 0 {
        Seq::empty()
    } else if digit_of(s.last(), n) == b {
        bucket(s.drop_last(), n, b).push(s.last())
    } else {
        bucket(s.drop_last(), n, b)
    }
}

/// The buckets `0 .. upto` of `s` for digit `n`, one after the other.
pub open spec fn grouped(s: Seq<i32>, n: int, upto: int) -> Seq<i32>
    decreases upto,
{
    if upto <= 0 {
        Seq::empty()
    } else {
        grouped(s, n, upto - 1) + bucket(s, n, upto - 1)
    }
}

/// `s` after the pass on digit `n`: all 256 buckets in the order of their
/// digits.
pub open spec fn radix_pass(s: Seq<i32>, n: int) -> Seq<i32> {
    grouped(s, n, 256)
}

/// `s` after the passes on the digits `0 .. n`, the least significant first.
pub open spec fn passes(s: Seq<i32>, n: int) -> Seq<i32>
    decreases n,
{
    if n <= 0 {
        s
    } else {
        radix_pass(passes(s, n - 1), n - 1)
    }
}

/// The `n` lowest digits of `v`, read as one number.
pub open spec fn low(v: i32, n: int) -> nat {
    biased(v) % weight(n)
}

/// `s` is in ascending order of the `n` lowest digits of its elements.
pub open spec fn sorted_upto(s: Seq<i32>, n: int) -> bool {
    forall|i: int, j: int| 0 <= i < j < s.len() ==> low(s[i], n) <= low(s[j], n)
}

/// An element appended to `s` is appended to the bucket of its digit, and the
/// other buckets stay as they are.
pub proof fn lemma_bucket_push(s: Seq<i32>, v: i32, n: int, b: int)
    ensures
        bucket(s.push(v), n, b) == if digit_of(v, n) == b {
            bucket(s, n, b).push(v)
        } else {
            bucket(s, n, b)
        },
{
    assert(s.push(v).drop_last() =~= s);
}

/// The same, for the prefix of `s` that grows by the element at index `i`.
pub proof fn lemma_bucket_take_step(s: Seq<i32>, i: int, n: int, b: int)
    requires
        0 <= i < s.len(),
    ensures
        bucket(s.take(i + 1), n, b) == if digit_of(s[i], n) == b {
            bucket(s.take(i), n, b).push(s[i])
        } else {
            bucket(s.take(i), n, b)
        },
{
    assert(s.take(i + 1) =~= s.take(i).push(s[i]));
    lemma_bucket_push(s.take(i), s[i], n, b);
}

/// A bucket holds elements of `s` only, and only those with its digit; it is
/// no longer than `s`.
pub proof fn lemma_bucket_elements(s: Seq<i32>, n: int, b: int, t: int)
    requires
        0 <= t < bucket(s, n, b).len(),
    ensures
        digit_of(bucket(s, n, b)[t], n) == b,
        s.contains(bucket(s, n, b)[t]),
        bucket(s, n, b).len() <= s.len(),
    decreases s.len(),
{
    let rest = bucket(s.drop_last(), n, b);
    if t < rest.len() {
        lemma_bucket_elements(s.drop_last(), n, b, t);
        let k = choose|k: int| 0 <= k < s.drop_last().len() && s.drop_last()[k] == rest[t];
        assert(s[k] == rest[t]);
    } else {
        assert(s[s.len() - 1] == s.last());
        if rest.len() > 0 {
            lemma_bucket_elements(s.drop_last(), n, b, 0);
        }
    }
}

/// A bucket is no longer than `s`.
pub proof fn lemma_bucket_len(s: Seq<i32>, n: int, b: int)
    ensures
        bucket(s, n, b).len() <= s.len(),
{
    if bucket(s, n, b).len() > 0 {
        lemma_bucket_elements(s, n, b, 0);
    }
}

/// A bucket of a prefix is no longer than the prefix, nor than the bucket of
/// the whole.
pub proof fn lemma_bucket_take_len(s: Seq<i32>, i: int, n: int, b: int)
    requires
        0 <= i <= s.len(),
    ensures
        bucket(s.take(i), n, b).len() <= bucket(s, n, b).len(),
        bucket(s.take(i), n, b).len() <= i,
    decreases s.len() - i,
{
    lemma_bucket_len(s.take(i), n, b);
    if i < s.len() {
        lemma_bucket_take_step(s, i, n, b);
        lemma_bucket_take_len(s, i + 1, n, b);
    } else {
        assert(s.take(i) =~= s);
    }
}

/// A bucket holds each value of its digit as often as `s` does, and no other.
pub proof fn lemma_bucket_count(s: Seq<i32>, n: int, b: int, x: i32)
    ensures
        bucket(s, n, b).to_multiset().count(x) == if digit_of(x, n) == b {
            s.to_multiset().count(x)
        } else {
            0
        },
    decreases s.len(),
{
    broadcast use group_multiset_axioms;

    if s.len() == 0 {
        assert(s =~= Seq::<i32>::empty());
        to_multiset_len(s);
    } else {
        let t = s.drop_last();
        let v = s.last();
        lemma_bucket_count(t, n, b, x);
        assert(s =~= t.push(v));
        to_multiset_build(t, v);
        if digit_of(v, n) == b {
            to_multiset_build(bucket(t, n, b), v);
        }
    }
}

/// The buckets `0 .. upto` hold each value with a digit below `upto` as often
/// as `s` does, and no other.
pub proof fn lemma_grouped_count(s: Seq<i32>, n: int, upto: int, x: i32)
    requires
        0 <= upto,
    ensures
        grouped(s, n, upto).to_multiset().count(x) == if digit_of(x, n) < upto {
            s.to_multiset().count(x)
        } else {
            0
        },
    decreases upto,
{
    broadcast use group_multiset_axioms;

    if upto == 0 {
        to_multiset_len(grouped(s, n, upto));
    } else {
        lemma_grouped_count(s, n, upto - 1, x);
        lemma_bucket_count(s, n, upto - 1, x);
        lemma_multiset_commutative(grouped(s, n, upto - 1), bucket(s, n, upto - 1));
    }
}

/// A pass rearranges: it neither adds nor drops a value.
pub proof fn lemma_pass_permutes(s: Seq<i32>, n: int)
    ensures
        radix_pass(s, n).to_multiset() == s.to_multiset(),
        radix_pass(s, n).len() == s.len(),
{
    assert forall|x: i32| radix_pass(s, n).to_multiset().count(x) == s.to_multiset().count(
        x,
    ) by {
        lemma_grouped_count(s, n, 256, x);
    }
    assert(radix_pass(s, n).to_multiset() =~= s.to_multiset());
    to_multiset_len(radix_pass(s, n));
    to_multiset_len(s);
}

/// Sequences with the same values have buckets of the same lengths.
pub proof fn lemma_bucket_len_of_permutation(s1: Seq<i32>, s2: Seq<i32>, n: int, b: int)
    requires
        s1.to_multiset() == s2.to_multiset(),
    ensures
        bucket(s1, n, b).len() == bucket(s2, n, b).len(),
{
    assert forall|x: i32|
        bucket(s1, n, b).to_multiset().count(x) == bucket(s2, n, b).to_multiset().count(x) by {
        lemma_bucket_count(s1, n, b, x);
        lemma_bucket_count(s2, n, b, x);
    }
    assert(bucket(s1, n, b).to_multiset() =~= bucket(s2, n, b).to_multiset());
    to_multiset_len(bucket(s1, n, b));
    to_multiset_len(bucket(s2, n, b));
}

/// Where bucket `hi` starts is not before where bucket `lo` starts.
pub proof fn lemma_grouped_len_monotone(s: Seq<i32>, n: int, lo: int, hi: int)
    requires
        0 <= lo <= hi,
    ensures
        grouped(s, n, lo).len() <= grouped(s, n, hi).len(),
    decreases hi - lo,
{
    if lo < hi {
        lemma_grouped_len_monotone(s, n, lo, hi - 1);
    }
}

/// No bucket ends beyond the length of `s`.
pub proof fn lemma_grouped_len_bound(s: Seq<i32>, n: int, upto: int)
    requires
        0 <= upto <= 256,
    ensures
        grouped(s, n, upto).len() <= s.len(),
{
    lemma_grouped_len_monotone(s, n, upto, 256);
    lemma_pass_permutes(s, n);
}

/// The element at index `p` of the grouped sequence lies in the bucket of
/// its own digit, as far into it as `p` is beyond the start of that bucket.
pub proof fn lemma_grouped_locate(s: Seq<i32>, n: int, upto: int, p: int)
    requires
        0 <= p < grouped(s, n, upto).len(),
    ensures
        ({
            let d = digit_of(grouped(s, n, upto)[p], n);
            &&& 0 <= d < upto
            &&& grouped(s, n, d).len() <= p < grouped(s, n, d + 1).len()
            &&& p - grouped(s, n, d).len() < bucket(s, n, d).len()
            &&& grouped(s, n, upto)[p] == bucket(s, n, d)[p - grouped(s, n, d).len()]
        }),
    decreases upto,
{
    let before = grouped(s, n, upto - 1);
    if p < before.len() {
        lemma_grouped_locate(s, n, upto - 1, p);
    } else {
        lemma_bucket_elements(s, n, upto - 1, p - before.len());
    }
}

/// A bucket keeps the order that `s` has by its `m` lowest digits.
pub proof fn lemma_bucket_sorted(s: Seq<i32>, n: int, b: int, m: int)
    requires
        sorted_upto(s, m),
    ensures
        sorted_upto(bucket(s, n, b), m),
    decreases s.len(),
{
    if s.len() > 0 {
        let t = s.drop_last();
        let rest = bucket(t, n, b);
        lemma_bucket_sorted(t, n, b, m);
        if digit_of(s.last(), n) == b {
            assert forall|i: int| 0 <= i < rest.len() implies low(rest[i], m) <= low(
                s.last(),
                m,
            ) by {
                lemma_bucket_elements(t, n, b, i);
                let k = choose|k: int| 0 <= k < t.len() && t[k] == rest[i];
                assert(low(s[k], m) <= low(s[s.len() - 1], m));
            }
        }
    }
}

/// The `n + 1` lowest digits are digit `n`, followed by the `n` lowest digits.
pub proof fn lemma_low_step(v: i32, n: int)
    requires
        0 <= n < 4,
    ensures
        low(v, n + 1) == digit_of(v, n) * weight(n) + low(v, n),
        low(v, n) < weight(n),
        0 <= digit_of(v, n) < 256,
{
    let x = biased(v);
    let w = weight(n);
    let q = x / w;
    if n == 0 {
        assert(x == 0x100 * (q / 256) + q % 256);
    } else if n == 1 {
        assert(x == 0x1_0000 * (q / 256) + (q % 256) * 0x100 + x % 0x100);
    } else if n == 2 {
        assert(x == 0x100_0000 * (q / 256) + (q % 256) * 0x1_0000 + x % 0x1_0000);
    } else {
        assert(x == 0x1_0000_0000 * (q / 256) + (q % 256) * 0x100_0000 + x % 0x100_0000);
    }
}

/// A pass on digit `n` of a sequence in the order of its `n` lowest digits
/// leaves it in the order of its `n + 1` lowest digits.
pub proof fn lemma_pass_sorts_next_digit(s: Seq<i32>, n: int)
    requires
        0 <= n < 4,
        sorted_upto(s, n),
    ensures
        sorted_upto(radix_pass(s, n), n + 1),
{
    let out = radix_pass(s, n);
    assert forall|i: int, j: int| 0 <= i < j < out.len() implies low(out[i], n + 1) <= low(
        out[j],
        n + 1,
    ) by {
        let di = digit_of(out[i], n);
        let dj = digit_of(out[j], n);
        lemma_grouped_locate(s, n, 256, i);
        lemma_grouped_locate(s, n, 256, j);
        lemma_low_step(out[i], n);
        lemma_low_step(out[j], n);
        if di > dj {
            lemma_grouped_len_monotone(s, n, dj + 1, di);
        } else if di == dj {
            lemma_bucket_sorted(s, n, di, n);
            let start = grouped(s, n, di).len();
            assert(low(bucket(s, n, di)[i - start], n) <= low(bucket(s, n, di)[j - start], n));
        } else {
            assert(digit_of(out[i], n) * weight(n) + weight(n) <= digit_of(out[j], n) * weight(
                n,
            )) by (nonlinear_arith)
                requires
                    digit_of(out[i], n) + 1 <= digit_of(out[j], n),
            ;
        }
    }
}

/// The passes on the digits `0 .. n` rearrange `s` into the order of the `n`
/// lowest digits.
pub proof fn lemma_passes_sort_low_digits(s: Seq<i32>, n: int)
    requires
        0 <= n <= 4,
    ensures
        passes(s, n).to_multiset() == s.to_multiset(),
        passes(s, n).len() == s.len(),
        sorted_upto(passes(s, n), n),
    decreases n,
{
    if n > 0 {
        lemma_passes_sort_low_digits(s, n - 1);
        lemma_pass_permutes(passes(s, n - 1), n - 1);
        lemma_pass_sorts_next_digit(passes(s, n - 1), n - 1);
    }
}

/// Four passes, one per byte from the least to the most significant, sort:
/// the order of all four digits is the order of the integers.
pub proof fn lemma_four_passes_sort(s: Seq<i32>)
    ensures
        is_sort_of(passes(s, 4), s),
        passes(s, 4).len() == s.len(),
{
    let out = passes(s, 4);
    lemma_passes_sort_low_digits(s, 4);
    assert forall|i: int, j: int| 0 <= i < j < out.len() implies out[i] <= out[j] by {
        assert(low(out[i], 4) <= low(out[j], 4));
    }
}

} // verus!
