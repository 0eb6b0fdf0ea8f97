//! Radix sort with counted offsets and two buffers that change roles after
//! each pass.

use vstd::prelude::*;
use crate::digit::digit;
use crate::digit::digit_of;
use crate::order::is_sort_of;
use crate::pass::{
    bucket, grouped, lemma_bucket_len_of_permutation, lemma_bucket_take_len,
    lemma_bucket_take_step, lemma_four_passes_sort, lemma_grouped_len_bound,
    lemma_grouped_len_monotone, lemma_grouped_locate, lemma_pass_permutes,
    lemma_passes_sort_low_digits, passes, radix_pass,
};

verus! {

/// Counts, in one traversal, how often each byte value occurs at each of the
/// four digit positions: entry `256 * n + b` is the number of elements whose
/// digit `n` is `b`.
fn histogram(data: &[i32]) -> (count: Vec<usize>)
    ensures
        count@.len() == 1024,
        forall|n: int, b: int|
            0 <= n < 4 && 0 <= b < 256 ==> count@[256 * n + b] == (#[trigger] bucket(
                data@,
                n,
                b,
            )).len(),
{
    let mut count: Vec<usize> = vec![0usize; 1024];
    let mut i: usize = 0;
    while i < data.len()
        invariant
            i <= data@.len(),
            count@.len() == 1024,
            forall|n: int, b: int|
                0 <= n < 4 && 0 <= b < 256 ==> count@[256 * n + b] == (#[trigger] bucket(
                    data@.take(i as int),
                    n,
                    b,
                )).len(),
        decreases data@.len() - i,
    {
        let val = data[i];
        let k0 = digit(val, 0);
        let k1 = digit(val, 1);
        let k2 = digit(val, 2);
        let k3 = digit(val, 3);
        proof {
            lemma_bucket_take_len(data@, i as int, 0, k0 as int);
            lemma_bucket_take_len(data@, i as int, 1, k1 as int);
            lemma_bucket_take_len(data@, i as int, 2, k2 as int);
            lemma_bucket_take_len(data@, i as int, 3, k3 as int);
        }
        count[k0] += 1;
        count[256 + k1] += 1;
        count[2 * 256 + k2] += 1;
        count[3 * 256 + k3] += 1;
        proof {
            assert forall|n: int, b: int| 0 <= n < 4 && 0 <= b < 256 implies count@[256 * n + b]
                == (#[trigger] bucket(data@.take(i + 1), n, b)).len() by {
                lemma_bucket_take_step(data@, i as int, n, b);
            }
        }
        i += 1;
    }
    assert(data@.take(data@.len() as int) =~= data@);
    count
}

/// One pass on digit `n`, from `src` into `dst`. On entry the block of `count`
/// for digit `n` holds the lengths of the buckets of `src`. They are turned
/// into the offsets at which the buckets start, and each element is written
/// to the next free place of its bucket.
fn scatter_pass(src: &[i32], dst: &mut [i32], count: &mut Vec<usize>, n: u32)
    requires
        n < 4,
        src@.len() == old(dst)@.len(),
        old(count)@.len() == 1024,
        forall|b: int|
            0 <= b < 256 ==> old(count)@[256 * n + b] == (#[trigger] bucket(
                src@,
                n as int,
                b,
            )).len(),
    ensures
        final(dst)@ == radix_pass(src@, n as int),
        final(dst)@.len() == old(dst)@.len(),
        final(count)@.len() == 1024,
        forall|k: int|
            0 <= k < 1024 && !(256 * n <= k < 256 * n + 256) ==> final(count)@[k] == old(
                count,
            )@[k],
{
    let base: usize = 256 * (n as usize);
    let ghost s = src@;
    let ghost d = n as int;

    let mut total: usize = 0;
    for b in 0..256usize
        invariant
            base == 256 * n,
            n < 4,
            s == src@,
            d == n,
            count@.len() == 1024,
            total == grouped(s, d, b as int).len(),
            forall|c: int| 0 <= c < b ==> count@[base + c] == (#[trigger] grouped(s, d, c)).len(),
            forall|c: int| b <= c < 256 ==> count@[base + c] == (#[trigger] bucket(s, d, c)).len(),
            forall|k: int|
                0 <= k < 1024 && !(base <= k < base + 256) ==> count@[k] == old(count)@[k],
    {
        proof {
            lemma_grouped_len_bound(s, d, b + 1);
            assert(s.len() == src.len());
        }
        let here = count[base + b];
        count[base + b] = total;
        total += here;
    }
    // The offsets end where the buffer ends: every element has been counted
    // once at this digit position.
    assert(total == src.len()) by {
        lemma_pass_permutes(s, d);
    }

    let mut i: usize = 0;
    while i < src.len()
        invariant
            base == 256 * n,
            n < 4,
            d == n,
            s == src@,
            i <= s.len(),
            dst@.len() == s.len(),
            count@.len() == 1024,
            forall|b: int|
                0 <= b < 256 ==> count@[base + b] == grouped(s, d, b).len() + (#[trigger] bucket(
                    s.take(i as int),
                    d,
                    b,
                )).len(),
            forall|b: int, t: int|
                0 <= b < 256 && 0 <= t < bucket(s.take(i as int), d, b).len() ==> dst@[grouped(
                    s,
                    d,
                    b,
                ).len() + t] == #[trigger] bucket(s.take(i as int), d, b)[t],
            forall|k: int|
                0 <= k < 1024 && !(base <= k < base + 256) ==> count@[k] == old(count)@[k],
        decreases s.len() - i,
    {
        let val = src[i];
        let k = digit(val, n);
        let at = count[base + k];
        let ghost seen = s.take(i as int);
        let ghost before = dst@;
        proof {
            lemma_bucket_take_step(s, i as int, d, k as int);
            lemma_bucket_take_len(s, i + 1, d, k as int);
            lemma_grouped_len_bound(s, d, k + 1);
            assert(at == grouped(s, d, k as int).len() + bucket(seen, d, k as int).len());
        }
        dst[at] = val;
        count[base + k] = at + 1;
        proof {
            assert forall|b: int| 0 <= b < 256 implies count@[base + b] == grouped(s, d, b).len()
                + (#[trigger] bucket(s.take(i + 1), d, b)).len() by {
                lemma_bucket_take_step(s, i as int, d, b);
            }
            assert forall|b: int, t: int|
                0 <= b < 256 && 0 <= t < bucket(s.take(i + 1), d, b).len() implies dst@[grouped(
                    s,
                    d,
                    b,
                ).len() + t] == #[trigger] bucket(s.take(i + 1), d, b)[t] by {
                lemma_bucket_take_step(s, i as int, d, b);
                lemma_bucket_take_len(s, i as int, d, b);
                if b < k {
                    lemma_grouped_len_monotone(s, d, b + 1, k as int);
                } else if b > k {
                    lemma_grouped_len_monotone(s, d, k + 1, b);
                }
                let pos = grouped(s, d, b).len() + t;
                if !(b == k && t == bucket(seen, d, b).len()) {
                    lemma_grouped_len_bound(s, d, b + 1);
                    assert(before[pos] == bucket(seen, d, b)[t]);
                }
            }
        }
        i += 1;
    }
    proof {
        assert(s.take(s.len() as int) =~= s);
        let out = radix_pass(s, d);
        assert forall|p: int| 0 <= p < out.len() implies dst@[p] == out[p] by {
            lemma_grouped_locate(s, d, 256, p);
            let b = digit_of(out[p], d);
            let t = p - grouped(s, d, b).len();
            assert(dst@[grouped(s, d, b).len() + t] == bucket(s, d, b)[t]);
        }
        assert(dst@ =~= out);
    }
}

/// Sorts `data` in ascending order, in four passes from the least to the
/// most significant byte. The occurrences of every byte value at every digit
/// position are counted once, in advance. Each pass then writes every element
/// straight to its place in the other of two buffers. After the fourth pass
/// the elements are back in `data`.
///
/// On return `data` holds the values it held, each as often as before, in
/// ascending order; this is what the four passes of [`passes`] make of it.
pub fn faster_radix_sort(data: &mut [i32])
    ensures
        final(data)@.len() == old(data)@.len(),
        is_sort_of(final(data)@, old(data)@),
        final(data)@ == passes(old(data)@, 4),
{
    let mut count = histogram(data);
    let mut tmpbuf: Vec<i32> = vec![0i32; data.len()];

    // Each round makes two passes, from `data` into `tmpbuf` and back: the
    // buffers change roles without a copy, and the result ends up in `data`.
    for round in 0..2u32
        invariant
            count@.len() == 1024,
            tmpbuf@.len() == data@.len(),
            forall|m: int, b: int|
                2 * round <= m < 4 && 0 <= b < 256 ==> count@[256 * m + b] == (#[trigger] bucket(
                    old(data)@,
                    m,
                    b,
                )).len(),
            data@ == passes(old(data)@, 2 * round),
    {
        let n: u32 = 2 * round;
        proof {
            lemma_passes_sort_low_digits(old(data)@, n as int);
            assert forall|b: int| 0 <= b < 256 implies count@[256 * n + b] == (#[trigger] bucket(
                data@,
                n as int,
                b,
            )).len() by {
                lemma_bucket_len_of_permutation(data@, old(data)@, n as int, b);
            }
        }
        scatter_pass(data, tmpbuf.as_mut_slice(), &mut count, n);
        proof {
            lemma_passes_sort_low_digits(old(data)@, n + 1);
            assert forall|b: int| 0 <= b < 256 implies count@[256 * (n + 1) + b] == (
                #[trigger] bucket(tmpbuf@, n + 1, b)
            ).len() by {
                lemma_bucket_len_of_permutation(tmpbuf@, old(data)@, n + 1, b);
            }
        }
        scatter_pass(tmpbuf.as_slice(), data, &mut count, n + 1);
    }
    proof {
        lemma_four_passes_sort(old(data)@);
    }
}

} // verus!
