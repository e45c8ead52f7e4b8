//! Seeded in-place shuffling.
//!
//! A forward Fisher-Yates pass driven by the linear congruential generator:
//! for every index `i` the element at `i` is swapped with one drawn from the
//! positions at or after `i`. The permutation is a function of the list length
//! and the seed alone.

use vstd::prelude::*;
use vstd::seq_lib::to_multiset_update;
use crate::seed::{prng, prng_next, prng_out};

verus! {

/// The sequence with the elements at `i` and `j` exchanged.
pub open spec fn swap_elems<T>(s: Seq<T>, i: int, j: int) -> Seq<T> {
    s.update(i, s[j]).update(j, s[i])
}

/// The state of the shuffle after the passes at indices `i`, `i+1`, ... have
/// run on `s` with generator state `state`: each pass draws one value and
/// swaps the element at its index with one at or after it.
pub open spec fn shuffle_from<T>(s: Seq<T>, state: u32, i: nat) -> Seq<T>
    decreases s.len() - i,
{
    if i >= s.len() {
        s
    } else {
        let r = prng_out(state) as nat;
        let j = i + r % ((s.len() - i) as nat);
        shuffle_from(swap_elems(s, i as int, j as int), prng_next(state), i + 1)
    }
}

/// What `shuffle` leaves behind: the full pass over `s`, with the generator
/// seeded at `seed`.
pub open spec fn shuffled<T>(s: Seq<T>, seed: u32) -> Seq<T> {
    shuffle_from(s, seed, 0)
}

/// Permutes the list in place; the result depends on the list's length and
/// the seed alone, so equal inputs always yield the identical permutation.
pub fn shuffle<T: Copy>(list: &mut Vec<T>, seed: u32)
    ensures
        final(list)@ == shuffled(old(list)@, seed),
        final(list)@.len() == old(list)@.len(),
{
    let mut state: u32 = seed;
    let len: usize = list.len();
    proof {
        lemma_shuffle_from_len(list@, state, 0);
    }
    for i in 0..len
        invariant
            list@.len() == len,
            shuffled(old(list)@, seed) == shuffle_from(list@, state, i as nat),
    {
        let r = prng(&mut state) as usize;
        let j = i + r % (len - i);
        let ghost pre = list@;
        let a = list[i];
        let b = list[j];
        list[i] = b;
        list[j] = a;
        proof {
            assert(list@ =~= swap_elems(pre, i as int, j as int));
        }
    }
}

proof fn lemma_shuffle_from_len<T>(s: Seq<T>, state: u32, i: nat)
    ensures
        shuffle_from(s, state, i).len() == s.len(),
    decreases s.len() - i,
{
    if i < s.len() {
        let r = prng_out(state) as nat;
        let j = i + r % ((s.len() - i) as nat);
        lemma_shuffle_from_len(swap_elems(s, i as int, j as int), prng_next(state), i + 1);
    }
}

proof fn lemma_swap_elems_multiset<T>(s: Seq<T>, i: int, j: int)
    requires
        0 <= i < s.len(),
        0 <= j < s.len(),
    ensures
        swap_elems(s, i, j).to_multiset() == s.to_multiset(),
{
    broadcast use to_multiset_update;

    let s1 = s.update(i, s[j]);
    if i == j {
        assert(swap_elems(s, i, j) =~= s);
    } else {
        assert(s1[j] == s[j]);
        assert(s1.update(j, s[i]).to_multiset() == s1.to_multiset().insert(s[i]).remove(s[j]));
        assert(s1.to_multiset() == s.to_multiset().insert(s[j]).remove(s[i]));
        assert(s.to_multiset().count(s[i]) > 0) by {
            vstd::seq_lib::to_multiset_contains(s, s[i]);
            assert(s.contains(s[i]));
        }
        assert(swap_elems(s, i, j).to_multiset() =~= s.to_multiset());
    }
}

proof fn lemma_shuffle_from_multiset<T>(s: Seq<T>, state: u32, i: nat)
    ensures
        shuffle_from(s, state, i).to_multiset() == s.to_multiset(),
    decreases s.len() - i,
{
    if i < s.len() {
        let r = prng_out(state) as nat;
        let j = i + r % ((s.len() - i) as nat);
        lemma_swap_elems_multiset(s, i as int, j as int);
        lemma_shuffle_from_multiset(swap_elems(s, i as int, j as int), prng_next(state), i + 1);
    }
}

/// The shuffle is a bijective reordering: for any list and any seed the result
/// holds exactly the elements of the input, with their multiplicities, and has
/// the input's length.
pub proof fn lemma_shuffle_permutes<T>(s: Seq<T>, seed: u32)
    ensures
        shuffled(s, seed).to_multiset() == s.to_multiset(),
        shuffled(s, seed).len() == s.len(),
{
    lemma_shuffle_from_multiset(s, seed, 0);
    lemma_shuffle_from_len(s, seed, 0);
}

/// A list of length one is invariant under the shuffle, whatever the seed.
pub proof fn lemma_shuffle_singleton<T>(s: Seq<T>, seed: u32)
    requires
        s.len() == 1,
    ensures
        shuffled(s, seed) == s,
{
    let r = prng_out(seed) as nat;
    let j = 0 + r % ((s.len() - 0) as nat);
    assert(j == 0);
    let s1 = swap_elems(s, 0, 0);
    assert(s1 =~= s);
    assert(shuffled(s, seed) == shuffle_from(s1, prng_next(seed), 1));
    assert(shuffle_from(s1, prng_next(seed), 1) == s1);
}

} // verus!
