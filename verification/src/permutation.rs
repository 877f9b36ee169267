use vstd::prelude::*;

use crate::rng::{
    index_from, lemma_index_from_is_remainder, random_index, state_after, xorshift_step, XorShift64,
};

verus! {

/// The sequence `0, 1, ..., n - 1`.
pub open spec fn identity_seq(n: nat) -> Seq<usize> {
    Seq::new(n, |k: int| k as usize)
}

/// `p` holds each of `0, 1, ..., n - 1` exactly once.
pub open spec fn is_permutation(p: Seq<usize>, n: nat) -> bool {
    &&& p.len() == n
    &&& forall|k: int| 0 <= k < n ==> #[trigger] p[k] < n
    &&& forall|a: int, b: int| 0 <= a < b < n ==> #[trigger] p[a] != #[trigger] p[b]
}

/// The Fisher-Yates passes for positions `i, i - 1, ..., 1` applied to `p`,
/// starting from the stream state `s`: position `i` is swapped with a position
/// drawn uniformly from `[0, i]`.
pub open spec fn shuffle_down(p: Seq<usize>, s: u64, i: nat) -> Seq<usize>
    decreases i,
{
    if i == 0 {
        p
    } else {
        let s2 = xorshift_step(s);
        let j = index_from(s2, (i + 1) as usize) as int;
        shuffle_down(p.update(i as int, p[j]).update(j, p[i as int]), s2, (i - 1) as nat)
    }
}

/// The permutation of `[0, n)` that the stream at state `s` shuffles.
pub open spec fn shuffled(s: u64, n: nat) -> Seq<usize> {
    if n == 0 {
        Seq::empty()
    } else {
        shuffle_down(identity_seq(n), s, (n - 1) as nat)
    }
}

/// How many draws shuffling `n` items takes.
pub open spec fn shuffle_draws(n: nat) -> nat {
    if n == 0 {
        0
    } else {
        (n - 1) as nat
    }
}

proof fn lemma_shuffle_down_permutes(p: Seq<usize>, s: u64, i: nat, n: nat)
    requires
        is_permutation(p, n),
        i < n,
        n <= usize::MAX,
    ensures
        is_permutation(shuffle_down(p, s, i), n),
    decreases i,
{
    if i > 0 {
        let s2 = xorshift_step(s);
        lemma_index_from_is_remainder(s2, (i + 1) as usize);
        let j = index_from(s2, (i + 1) as usize) as int;
        let q = p.update(i as int, p[j]).update(j, p[i as int]);
        assert forall|k: int| 0 <= k < n implies #[trigger] q[k] < n by {
            if k != i && k != j {
                assert(q[k] == p[k]);
            }
        }
        assert forall|x: int, y: int| 0 <= x < y < n implies #[trigger] q[x] != #[trigger] q[y] by {
            let fx = if x == i { j } else if x == j { i as int } else { x };
            let fy = if y == i { j } else if y == j { i as int } else { y };
            assert(q[x] == p[fx]);
            assert(q[y] == p[fy]);
            if fx < fy {
                assert(p[fx] != p[fy]);
            } else {
                assert(p[fy] != p[fx]);
            }
        }
        lemma_shuffle_down_permutes(q, s2, (i - 1) as nat, n);
    }
}

/// Law: from any stream state, the shuffle of `[0, n)` holds each of
/// `0, 1, ..., n - 1` exactly once.
pub proof fn lemma_shuffled_is_permutation(s: u64, n: nat)
    requires
        n <= usize::MAX,
    ensures
        is_permutation(shuffled(s, n), n),
{
    if n > 0 {
        assert(is_permutation(identity_seq(n), n));
        lemma_shuffle_down_permutes(identity_seq(n), s, (n - 1) as nat, n);
    }
}

/// Generates a random permutation of `[0, n)` with a Fisher-Yates shuffle.
pub fn random_permutation(rng: &mut XorShift64, n: usize) -> (perm: Vec<usize>)
    ensures
        perm@ == shuffled(old(rng).state(), n as nat),
        final(rng).state() == state_after(old(rng).state(), shuffle_draws(n as nat)),
        is_permutation(perm@, n as nat),
{
    let ghost s0 = rng.state();
    let mut perm: Vec<usize> = Vec::new();
    let mut k: usize = 0;
    while k < n
        invariant
            k <= n,
            perm@ == identity_seq(k as nat),
        decreases n - k,
    {
        perm.push(k);
        k = k + 1;
        assert(perm@ =~= identity_seq(k as nat));
    }
    if n == 0 {
        assert(perm@ =~= shuffled(s0, 0));
        return perm;
    }
    let mut i: usize = n - 1;
    while i > 0
        invariant
            0 < n,
            i < n,
            perm@.len() == n,
            shuffle_down(perm@, rng.state(), i as nat) == shuffled(s0, n as nat),
            rng.state() == state_after(s0, (n - 1 - i) as nat),
            is_permutation(perm@, n as nat),
        decreases i,
    {
        let ghost before = perm@;
        let ghost st = rng.state();
        let j: usize = random_index(rng, i + 1);
        let a: usize = perm[i];
        let b: usize = perm[j];
        perm.set(i, b);
        perm.set(j, a);
        assert(perm@ =~= before.update(i as int, before[j as int]).update(j as int, before[i as int]));
        assert forall|x: int, y: int| 0 <= x < y < n implies #[trigger] perm@[x] != #[trigger] perm@[y] by {
            let fx = if x == i { j as int } else if x == j { i as int } else { x };
            let fy = if y == i { j as int } else if y == j { i as int } else { y };
            assert(perm@[x] == before[fx]);
            assert(perm@[y] == before[fy]);
            if fx < fy {
                assert(before[fx] != before[fy]);
            } else {
                assert(before[fy] != before[fx]);
            }
        }
        i = i - 1;
    }
    perm
}

} // verus!
