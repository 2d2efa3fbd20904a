//! Shuffling in place by random swaps, as the quiz and the maze do it.

use vstd::prelude::*;
use crate::random::fast_usize_upto;

verus! {

/// Draws that a shuffle of `n` items may use: one per slot from the second
/// on, `draws[k]` at or before slot `k + 1`.
pub open spec fn shuffle_draws(draws: Seq<usize>, n: nat) -> bool {
    &&& draws.len() == (if n == 0 {
        0
    } else {
        n - 1
    })
    &&& forall|k: int| 0 <= k < draws.len() ==> #[trigger] draws[k] <= k + 1
}

/// The items after swapping slot `m` with slot `draws[m - 1]`, for `m` from
/// `top` down to 1.
pub open spec fn swapped_down<T>(s: Seq<T>, draws: Seq<usize>, top: int) -> Seq<T>
    decreases top,
{
    if top <= 0 {
        s
    } else {
        let j = draws[top - 1] as int;
        swapped_down(s.update(top, s[j]).update(j, s[top]), draws, top - 1)
    }
}

/// Walks from the last slot down to the second, swapping each slot `m`
/// with slot `draws[m - 1]`.
pub fn apply_swaps<T: Copy>(v: &mut Vec<T>, draws: &Vec<usize>)
    requires
        shuffle_draws(draws@, old(v)@.len()),
    ensures
        final(v)@ == swapped_down(old(v)@, draws@, draws@.len() as int),
        final(v)@.to_multiset() == old(v)@.to_multiset(),
{
    let n = v.len();
    if n < 2 {
        return;
    }
    let mut i: usize = n - 1;
    while i >= 1
        invariant
            v@.len() == n,
            n >= 2,
            i < n,
            shuffle_draws(draws@, n as nat),
            swapped_down(v@, draws@, i as int) == swapped_down(
                old(v)@,
                draws@,
                draws@.len() as int,
            ),
            v@.to_multiset() == old(v)@.to_multiset(),
        decreases i,
    {
        let j = draws[i - 1];
        assert(j <= i);
        let ghost before = v@;
        let a = v[i];
        let b = v[j];
        v.set(i, b);
        v.set(j, a);
        proof {
            assert(v@ == before.update(i as int, before[j as int]).update(j as int, before[i as int]));
            vstd::seq_lib::to_multiset_update(before, i as int, b);
            vstd::seq_lib::to_multiset_update(before.update(i as int, b), j as int, a);
            before.to_multiset_ensures();
            assert(before.contains(a));
            assert(before.update(i as int, b)[j as int] == b);
            lemma_ms_swap(before.to_multiset(), a, b);
            assert(v@.to_multiset() =~= before.to_multiset());
        }
        i = i - 1;
    }
}

/// Walks from the last slot down to the second, swapping each with a slot
/// drawn at or before it (a Fisher-Yates shuffle): the draws are made first,
/// last slot first, then the swaps are applied. The items stay the same,
/// each as often as before.
pub fn swap_shuffle<T: Copy>(v: &mut Vec<T>)
    ensures
        final(v)@.to_multiset() == old(v)@.to_multiset(),
        exists|draws: Seq<usize>|
            shuffle_draws(draws, old(v)@.len()) && final(v)@ == #[trigger] swapped_down(
                old(v)@,
                draws,
                draws.len() as int,
            ),
{
    let n = v.len();
    let mut draws: Vec<usize> = Vec::new();
    let mut k: usize = 0;
    while k + 1 < n
        invariant
            draws@.len() == k,
            k == 0 || k + 1 <= n,
            forall|t: int| 0 <= t < k ==> #[trigger] draws@[t] == 0,
        decreases n - k,
    {
        draws.push(0);
        k = k + 1;
    }
    if n >= 2 {
        let mut i: usize = n - 1;
        while i >= 1
            invariant
                n >= 2,
                i < n,
                draws@.len() == n - 1,
                forall|t: int| 0 <= t < draws@.len() ==> #[trigger] draws@[t] <= t + 1,
            decreases i,
        {
            let j = fast_usize_upto(i);
            draws.set(i - 1, j);
            i = i - 1;
        }
    }
    apply_swaps(v, &draws);
}

pub(crate) proof fn lemma_ms_swap<A>(ms: vstd::multiset::Multiset<A>, a: A, b: A)
    requires
        ms.count(a) >= 1,
    ensures
        ms.insert(b).remove(a).insert(a).remove(b) =~= ms,
{
}

/// A sequence with the same items as one without repeats has none either.
pub(crate) proof fn lemma_same_items_distinct<A>(a: Seq<A>, b: Seq<A>)
    requires
        a.no_duplicates(),
        a.to_multiset() == b.to_multiset(),
    ensures
        b.no_duplicates(),
{
    a.lemma_multiset_has_no_duplicates();
    b.lemma_multiset_has_no_duplicates_conv();
}

} // verus!
