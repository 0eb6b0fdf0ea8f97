//! Radix sort with 256 growable buckets per pass.

use vstd::prelude::*;
use crate::digit::digit;
use crate::order::is_sort_of;
use crate::pass::{
    bucket, grouped, lemma_bucket_take_step, lemma_four_passes_sort, lemma_grouped_len_bound,
    lemma_pass_permutes, passes,
};

verus! {

/// Sorts `data` in ascending order, in four passes from the least to the
/// most significant byte. Each pass appends every element to the bucket of its
/// digit and then writes the buckets back in the order of their digits.
///
/// On return `data` holds the values it held, each as often as before, in
/// ascending order; this is what the four passes of [`passes`] make of it.
pub fn radix_sort(data: &mut [i32])
    ensures
        final(data)@.len() == old(data)@.len(),
        is_sort_of(final(data)@, old(data)@),
        final(data)@ == passes(old(data)@, 4),
{
    let mut buckets: Vec<Vec<i32>> = vec![vec![]; 256];

    for n in 0..4u32
        invariant
            data@ == passes(old(data)@, n as int),
            buckets@.len() == 256,
            forall|b: int| 0 <= b < 256 ==> (#[trigger] buckets@[b])@.len() == 0,
    {
        let ghost src = data@;
        for i in 0..data.len()
            invariant
                n < 4,
                data@ == src,
                buckets@.len() == 256,
                forall|b: int|
                    0 <= b < 256 ==> (#[trigger] buckets@[b])@ == bucket(
                        src.take(i as int),
                        n as int,
                        b,
                    ),
        {
            let val = data[i];
            let which = digit(val, n);
            proof {
                assert forall|b: int| 0 <= b < 256 implies bucket(
                    src.take(i + 1),
                    n as int,
                    b,
                ) == if b == which {
                    bucket(src.take(i as int), n as int, b).push(val)
                } else {
                    bucket(src.take(i as int), n as int, b)
                } by {
                    lemma_bucket_take_step(src, i as int, n as int, b);
                }
            }
            buckets[which].push(val);
        }
        assert(src.take(src.len() as int) =~= src);

        let mut pos: usize = 0;
        for b in 0..256usize
            invariant
                data@.len() == src.len(),
                pos == grouped(src, n as int, b as int).len(),
                data@.take(pos as int) == grouped(src, n as int, b as int),
                buckets@.len() == 256,
                forall|c: int| 0 <= c < b ==> (#[trigger] buckets@[c])@.len() == 0,
                forall|c: int|
                    b <= c < 256 ==> (#[trigger] buckets@[c])@ == bucket(src, n as int, c),
        {
            let filled = buckets[b].len();
            proof {
                lemma_grouped_len_bound(src, n as int, b + 1);
            }
            for t in 0..filled
                invariant
                    b < 256,
                    data@.len() == src.len(),
                    buckets@.len() == 256,
                    buckets@[b as int]@ == bucket(src, n as int, b as int),
                    filled == bucket(src, n as int, b as int).len(),
                    grouped(src, n as int, b + 1).len() <= src.len(),
                    pos == grouped(src, n as int, b as int).len() + t,
                    data@.take(pos as int) == grouped(src, n as int, b as int) + bucket(
                        src,
                        n as int,
                        b as int,
                    ).take(t as int),
            {
                let ghost before = data@;
                data[pos] = buckets[b][t];
                pos += 1;
                proof {
                    let filling = bucket(src, n as int, b as int);
                    assert(data@.take(pos as int) =~= before.take(pos - 1).push(filling[t as int]));
                    assert(filling.take(t + 1) =~= filling.take(t as int).push(filling[t as int]));
                }
            }
            assert(bucket(src, n as int, b as int).take(filled as int) =~= bucket(
                src,
                n as int,
                b as int,
            ));
            buckets[b].clear();
        }
        proof {
            lemma_pass_permutes(src, n as int);
            assert(data@.take(pos as int) =~= data@);
        }
    }
    proof {
        lemma_four_passes_sort(old(data)@);
    }
}

} // verus!
