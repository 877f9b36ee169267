use vstd::prelude::*;

use vstd::arithmetic::div_mod::{
    lemma_div_is_ordered, lemma_div_multiples_vanish, lemma_div_pos_is_pos,
    lemma_fundamental_div_mod, lemma_fundamental_div_mod_converse_div, lemma_mod_pos_bound,
};

use crate::grid::{
    block_index, cell_law, complete_matrix, completed_entries, edge_total, entries_in_shape,
    holds_matching, row_major, within_cents_from, CostRule,
};
use crate::matrix::CostMatrix;
use crate::permutation::{is_permutation, random_permutation, shuffle_draws, shuffled};
use crate::rng::{state_after, XorShift64};

verus! {

/// The first index of block `b` when blocks hold `bs` indices each.
pub open spec fn block_start(b: int, bs: usize) -> int {
    b * bs
}

/// The end (exclusive) of block `b` out of `nb` blocks over `[0, n)`: the last
/// block takes every index left over.
pub open spec fn block_end(b: int, n: usize, nb: usize, bs: usize) -> int {
    if b + 1 == nb {
        n as int
    } else {
        block_start(b, bs) + bs
    }
}

/// The matching entries of blocks `b, b + 1, ..., nb - 1`, drawn from the
/// stream at state `s`, and the state after them.
///
/// Each block shuffles its own indices, then gives its `i`-th row a
/// within-block cost draw.
pub open spec fn block_phase(s: u64, n: usize, nb: usize, bs: usize, b: nat) -> (Seq<(usize, usize, u32)>, u64)
    decreases nb - b,
{
    if b >= nb {
        (Seq::empty(), s)
    } else {
        let start = block_start(b as int, bs);
        let len = (block_end(b as int, n, nb, bs) - start) as nat;
        let perm = shuffled(s, len);
        let s1 = state_after(s, shuffle_draws(len));
        let here = Seq::new(
            len,
            |i: int| ((start + i) as usize, (start + perm[i]) as usize, within_cents_from(state_after(s1, (i + 1) as nat))),
        );
        let rest = block_phase(state_after(s1, len), n, nb, bs, b + 1);
        (here + rest.0, rest.1)
    }
}

/// The matching of `block_structured_matrix(seed, n, n_blocks, ..)`: a
/// permutation within each block.
pub open spec fn block_matching(seed: u64, n: usize, n_blocks: usize) -> Seq<(usize, usize, u32)> {
    block_phase(seed, n, n_blocks, (n / n_blocks) as usize, 0).0
}

/// The entries of `block_structured_matrix(seed, n, n_blocks, target)`.
pub open spec fn block_structured_entries(seed: u64, n: usize, n_blocks: usize, target: usize) -> Seq<(usize, usize, u32)> {
    let bs = (n / n_blocks) as usize;
    let phase = block_phase(seed, n, n_blocks, bs, 0);
    completed_entries(phase.1, n, n, phase.0, target, CostRule::Blocks { n_blocks, block_size: bs })
}

/// Lemma: every index of block `b` has block index `b`.
proof fn lemma_block_index(n: usize, nb: usize, b: int, x: int)
    requires
        nb > 0,
        0 <= b < nb,
        block_start(b, (n / nb) as usize) <= x < block_end(b, n, nb, (n / nb) as usize),
    ensures
        block_index(x, nb, (n / nb) as usize) == b,
{
    let bs = (n / nb) as usize;
    lemma_block_fits(n, nb, b);
    if bs == 0 {
        assert(block_start(b, bs) == 0) by (nonlinear_arith)
            requires
                bs == 0,
        ;
    } else {
        let bsi = bs as int;
        if b + 1 < nb {
            lemma_fundamental_div_mod_converse_div(x, bsi, b, x - b * bsi);
        } else {
            lemma_div_is_ordered(b * bsi, x, bsi);
            assert(b * bsi == bsi * b) by (nonlinear_arith);
            lemma_div_multiples_vanish(b, bsi);
        }
    }
}

proof fn lemma_block_fits(n: usize, nb: usize, b: int)
    requires
        nb > 0,
        0 <= b < nb,
    ensures
        0 <= n / nb,
        0 <= block_start(b, (n / nb) as usize),
        block_start(b, (n / nb) as usize) + n / nb <= n,
        block_start(b, (n / nb) as usize) <= block_end(b, n, nb, (n / nb) as usize) <= n,
{
    let bs = n as int / nb as int;
    lemma_fundamental_div_mod(n as int, nb as int);
    lemma_mod_pos_bound(n as int, nb as int);
    lemma_div_pos_is_pos(n as int, nb as int);
    assert(b * bs + bs <= n) by (nonlinear_arith)
        requires
            0 <= b,
            b + 1 <= nb,
            0 <= bs,
            n == nb * bs + n as int % nb as int,
            0 <= n as int % nb as int,
    ;
    assert(0 <= b * bs) by (nonlinear_arith)
        requires
            0 <= b,
            0 <= bs,
    ;
}

/// Generates a block-structured `n x n` cost matrix over `n_blocks` blocks,
/// holding `min(max(target_edges, n), n * n)` distinct cells.
///
/// Blocks hold `n / n_blocks` consecutive indices each, the last block also
/// taking the remainder. A permutation is embedded within each block for
/// feasibility. Every cell whose row and column fall in the same block has a
/// low cost (hundredths in `[1, 100]`); every other cell has a high cost
/// (hundredths in `[600, 999]`).
pub fn block_structured_matrix(seed: u64, n: usize, n_blocks: usize, target_edges: usize) -> (m: CostMatrix)
    requires
        n_blocks > 0,
    ensures
        m.n_rows == n,
        m.n_cols == n,
        m.entries@ == block_structured_entries(seed, n, n_blocks, target_edges),
        m.entries@.len() == edge_total(target_edges, n, n, n),
        row_major(m.entries@),
        entries_in_shape(m.entries@, n as nat, n as nat),
        block_matching(seed, n, n_blocks).len() == n,
        holds_matching(m.entries@, block_matching(seed, n, n_blocks), n),
        forall|k: int|
            0 <= k < n ==> block_index(k, n_blocks, (n / n_blocks) as usize) == block_index(
                (#[trigger] block_matching(seed, n, n_blocks)[k]).1 as int,
                n_blocks,
                (n / n_blocks) as usize,
            ),
        forall|k: int|
            0 <= k < m.entries@.len() ==> {
                let e = #[trigger] m.entries@[k];
                if block_index(e.0 as int, n_blocks, (n / n_blocks) as usize) == block_index(e.1 as int, n_blocks, (n / n_blocks) as usize) {
                    1 <= e.2 <= 100
                } else {
                    600 <= e.2 <= 999
                }
            },
{
    let mut rng = XorShift64::new(seed);
    let block_size: usize = n / n_blocks;
    let ghost bs = block_size;
    let mut entries: Vec<(usize, usize, u32)> = Vec::new();
    let mut b: usize = 0;
    while b < n_blocks
        invariant
            n_blocks > 0,
            b <= n_blocks,
            block_size == n / n_blocks,
            bs == block_size,
            entries@ + block_phase(rng.state(), n, n_blocks, bs, b as nat).0
                == block_phase(seed, n, n_blocks, bs, 0).0,
            block_phase(rng.state(), n, n_blocks, bs, b as nat).1 == block_phase(seed, n, n_blocks, bs, 0).1,
            entries@.len() == (if b == n_blocks { n as int } else { block_start(b as int, bs) }),
            forall|k: int| 0 <= k < entries@.len() ==> (#[trigger] entries@[k]).0 == k,
            forall|k: int| 0 <= k < entries@.len() ==> (#[trigger] entries@[k]).1 < entries@.len(),
            forall|k: int| 0 <= k < entries@.len() ==> 1 <= (#[trigger] entries@[k]).2 <= 100,
            forall|k1: int, k2: int|
                0 <= k1 < k2 < entries@.len() ==> (#[trigger] entries@[k1]).1 != (#[trigger] entries@[k2]).1,
            forall|k: int| 0 <= k < entries@.len() ==> block_index(k, n_blocks, bs) == block_index((#[trigger] entries@[k]).1 as int, n_blocks, bs),
        decreases n_blocks - b,
    {
        proof {
            lemma_block_fits(n, n_blocks, b as int);
        }
        let start: usize = b * block_size;
        let end: usize = if b == n_blocks - 1 { n } else { start + block_size };
        let len: usize = end - start;
        let ghost s = rng.state();
        let ghost before = entries@;
        let perm = random_permutation(&mut rng, len);
        let ghost s1 = rng.state();
        let ghost here = Seq::new(
            len as nat,
            |i: int| ((start + i) as usize, (start + perm@[i]) as usize, within_cents_from(state_after(s1, (i + 1) as nat))),
        );
        let mut i: usize = 0;
        while i < len
            invariant
                i <= len,
                start == block_start(b as int, bs),
                end == block_end(b as int, n, n_blocks, bs),
                start + len == end,
                end <= n,
                b < n_blocks,
                before.len() == start,
                is_permutation(perm@, len as nat),
                here == Seq::new(
                    len as nat,
                    |i: int| ((start + i) as usize, (start + perm@[i]) as usize, within_cents_from(state_after(s1, (i + 1) as nat))),
                ),
                rng.state() == state_after(s1, i as nat),
                entries@ == before + here.take(i as int),
            decreases len - i,
        {
            let raw: u64 = rng.next_value() % 100 + 1;
            entries.push((start + i, start + perm[i], raw as u32));
            assert(entries@ =~= before + here.take(i + 1));
            i = i + 1;
        }
        assert(here.take(len as int) =~= here);
        proof {
            assert(block_start(b as int + 1, bs) == block_start(b as int, bs) + bs) by (nonlinear_arith);
            assert forall|k: int| start <= k < end implies block_index(k, n_blocks, bs) == block_index((#[trigger] entries@[k]).1 as int, n_blocks, bs) by {
                let c = entries@[k].1 as int;
                assert(entries@[k] == here[k - start]);
                lemma_block_index(n, n_blocks, b as int, k);
                lemma_block_index(n, n_blocks, b as int, c);
            }
        }
        assert(block_phase(s, n, n_blocks, bs, b as nat).0 == here + block_phase(rng.state(), n, n_blocks, bs, (b + 1) as nat).0);
        assert(before + block_phase(s, n, n_blocks, bs, b as nat).0
            =~= entries@ + block_phase(rng.state(), n, n_blocks, bs, (b + 1) as nat).0);
        b = b + 1;
    }
    let ghost mid = rng.state();
    assert(block_phase(mid, n, n_blocks, bs, n_blocks as nat).0 =~= Seq::<(usize, usize, u32)>::empty());
    assert(entries@ =~= block_phase(seed, n, n_blocks, bs, 0).0);
    let rule = CostRule::Blocks { n_blocks, block_size };
    let result = complete_matrix(&mut rng, n, n, &entries, target_edges, rule);
    proof {
        assert forall|k: int|
            0 <= k < result@.len() implies {
                let e = #[trigger] result@[k];
                if block_index(e.0 as int, n_blocks, bs) == block_index(e.1 as int, n_blocks, bs) {
                    1 <= e.2 <= 100
                } else {
                    600 <= e.2 <= 999
                }
            } by {
            assert(cell_law(rule, result@[k].0 as int, result@[k].1 as int, result@[k].2));
        }
    }
    CostMatrix { n_rows: n, n_cols: n, entries: result }
}

} // verus!
