use vstd::prelude::*;

use crate::grid::{
    cell_law, complete_matrix, completed_entries, edge_total, entries_in_shape, holds_cell, holds_matching,
    lemma_completed_entries_hold_matching,
    low_cents_from, noise_from, row_major, CostRule,
};
use crate::permutation::{
    is_permutation, lemma_shuffled_is_permutation, random_permutation, shuffle_draws, shuffled,
};
use crate::rng::{cents_from, random_cost_cents, state_after, XorShift64};

verus! {

/// A sparse cost matrix of shape `n_rows x n_cols`, as its entries in
/// row-major order.
///
/// Each entry is `(row, column, cost)`, where `cost` is an integer code whose
/// meaning each generator documents (hundredths of a unit for most of them).
pub struct CostMatrix {
    pub n_rows: usize,
    pub n_cols: usize,
    pub entries: Vec<(usize, usize, u32)>,
}

/// The number of cells of an `n_rows x n_cols` matrix, or `None` when it does
/// not fit in a `usize` (the caller then saturates its edge target).
pub fn cell_count(n_rows: usize, n_cols: usize) -> (cells: Option<usize>)
    ensures
        cells matches Some(c) ==> c == n_rows * n_cols,
        cells is None <==> n_rows * n_cols > usize::MAX,
{
    n_rows.checked_mul(n_cols)
}

/// The matching of `sparse_square_matrix(seed, n, ..)`: a shuffle of `[0, n)`
/// first (taking `shuffle_draws(n)` draws), then one cost draw for each row.
pub open spec fn sparse_square_matching(seed: u64, n: usize) -> Seq<(usize, usize, u32)> {
    let perm = shuffled(seed, n as nat);
    let p = shuffle_draws(n as nat);
    Seq::new(n as nat, |k: int| (k as usize, perm[k], cents_from(state_after(seed, (p + k + 1) as nat))))
}

/// The entries of `sparse_square_matrix(seed, n, target)`: its matching
/// completed with extra cells costed in hundredths in `[1, 999]`.
pub open spec fn sparse_square_entries(seed: u64, n: usize, target: usize) -> Seq<(usize, usize, u32)> {
    let after = state_after(seed, (shuffle_draws(n as nat) + n) as nat);
    completed_entries(after, n, n, sparse_square_matching(seed, n), target, CostRule::Cents)
}

/// Generates a random `n x n` sparse cost matrix holding
/// `min(max(target_edges, n), n * n)` distinct cells, costs in hundredths in
/// `[1, 999]`.
///
/// Embeds a random permutation (a perfect matching) to guarantee feasibility,
/// then fills additional random cells to reach the target.
pub fn sparse_square_matrix(seed: u64, n: usize, target_edges: usize) -> (m: CostMatrix)
    ensures
        m.n_rows == n,
        m.n_cols == n,
        m.entries@ == sparse_square_entries(seed, n, target_edges),
        m.entries@.len() == edge_total(target_edges, n, n, n),
        row_major(m.entries@),
        entries_in_shape(m.entries@, n as nat, n as nat),
        holds_matching(m.entries@, sparse_square_matching(seed, n), n),
        is_permutation(shuffled(seed, n as nat), n as nat),
        forall|k: int| 0 <= k < n ==> #[trigger] holds_cell(m.entries@, k, shuffled(seed, n as nat)[k] as int),
        forall|k: int| 0 <= k < m.entries@.len() ==> 1 <= (#[trigger] m.entries@[k]).2 <= 999,
{
    let ghost spec_matching = sparse_square_matching(seed, n);
    let mut rng = XorShift64::new(seed);
    let perm = random_permutation(&mut rng, n);
    let ghost p = shuffle_draws(n as nat);
    let mut matching: Vec<(usize, usize, u32)> = Vec::new();
    let mut row: usize = 0;
    while row < n
        invariant
            row <= n,
            spec_matching == sparse_square_matching(seed, n),
            perm@ == shuffled(seed, n as nat),
            is_permutation(perm@, n as nat),
            p == shuffle_draws(n as nat),
            rng.state() == state_after(seed, (p + row) as nat),
            matching@.len() == row,
            forall|k: int| 0 <= k < row ==> #[trigger] matching@[k] == spec_matching[k],
        decreases n - row,
    {
        let cost: u32 = random_cost_cents(&mut rng);
        matching.push((row, perm[row], cost));
        row = row + 1;
    }
    assert(matching@ =~= spec_matching);
    let entries = complete_matrix(&mut rng, n, n, &matching, target_edges, CostRule::Cents);
    proof {
        assert forall|k: int| 0 <= k < n implies #[trigger] holds_cell(entries@, k, shuffled(seed, n as nat)[k] as int) by {
            assert(entries@.contains(matching@[k]));
            let i = choose|i: int| 0 <= i < entries@.len() && entries@[i] == matching@[k];
            assert(entries@[i].0 == k && entries@[i].1 == shuffled(seed, n as nat)[k]);
        }
    }
    CostMatrix { n_rows: n, n_cols: n, entries }
}

/// The matching of `rectangular_sparse_matrix(seed, n_rows, n_cols, ..)`: a
/// shuffle of the `n_cols` columns first, then row `k < min(n_rows, n_cols)`
/// gets the `k`-th shuffled column and one cost draw.
pub open spec fn rectangular_matching(seed: u64, n_rows: usize, n_cols: usize) -> Seq<(usize, usize, u32)> {
    let min_dim: usize = if n_rows < n_cols { n_rows } else { n_cols };
    let perm = shuffled(seed, n_cols as nat);
    let p = shuffle_draws(n_cols as nat);
    Seq::new(min_dim as nat, |k: int| (k as usize, perm[k], cents_from(state_after(seed, (p + k + 1) as nat))))
}

/// The entries of `rectangular_sparse_matrix(seed, n_rows, n_cols, target)`.
pub open spec fn rectangular_entries(seed: u64, n_rows: usize, n_cols: usize, target: usize) -> Seq<(usize, usize, u32)> {
    let min_dim: usize = if n_rows < n_cols { n_rows } else { n_cols };
    let after = state_after(seed, (shuffle_draws(n_cols as nat) + min_dim) as nat);
    completed_entries(after, n_rows, n_cols, rectangular_matching(seed, n_rows, n_cols), target, CostRule::Cents)
}

/// Generates a random `n_rows x n_cols` sparse cost matrix holding
/// `min(max(target_edges, min(n_rows, n_cols)), n_rows * n_cols)` distinct
/// cells, costs in hundredths in `[1, 999]`.
///
/// Embeds a matching of size `min(n_rows, n_cols)` to guarantee feasibility:
/// row `i` is paired with a random column for each `i` below that size.
pub fn rectangular_sparse_matrix(seed: u64, n_rows: usize, n_cols: usize, target_edges: usize) -> (m: CostMatrix)
    ensures
        m.n_rows == n_rows,
        m.n_cols == n_cols,
        m.entries@ == rectangular_entries(seed, n_rows, n_cols, target_edges),
        m.entries@.len() == edge_total(target_edges, if n_rows < n_cols { n_rows } else { n_cols }, n_rows, n_cols),
        row_major(m.entries@),
        entries_in_shape(m.entries@, n_rows as nat, n_cols as nat),
        holds_matching(m.entries@, rectangular_matching(seed, n_rows, n_cols), n_cols),
        is_permutation(shuffled(seed, n_cols as nat), n_cols as nat),
        forall|k: int|
            0 <= k < (if n_rows < n_cols { n_rows } else { n_cols }) ==> #[trigger] holds_cell(m.entries@, k, shuffled(seed, n_cols as nat)[k] as int),
        forall|k: int| 0 <= k < m.entries@.len() ==> 1 <= (#[trigger] m.entries@[k]).2 <= 999,
{
    let ghost spec_matching = rectangular_matching(seed, n_rows, n_cols);
    let mut rng = XorShift64::new(seed);
    let min_dim: usize = if n_rows < n_cols { n_rows } else { n_cols };
    let col_perm = random_permutation(&mut rng, n_cols);
    let ghost p = shuffle_draws(n_cols as nat);
    let mut matching: Vec<(usize, usize, u32)> = Vec::new();
    let mut row: usize = 0;
    while row < min_dim
        invariant
            row <= min_dim,
            min_dim == (if n_rows < n_cols { n_rows } else { n_cols }),
            spec_matching == rectangular_matching(seed, n_rows, n_cols),
            col_perm@ == shuffled(seed, n_cols as nat),
            is_permutation(col_perm@, n_cols as nat),
            p == shuffle_draws(n_cols as nat),
            rng.state() == state_after(seed, (p + row) as nat),
            matching@.len() == row,
            forall|k: int| 0 <= k < row ==> #[trigger] matching@[k] == spec_matching[k],
        decreases min_dim - row,
    {
        let cost: u32 = random_cost_cents(&mut rng);
        matching.push((row, col_perm[row], cost));
        row = row + 1;
    }
    assert(matching@ =~= spec_matching);
    let entries = complete_matrix(&mut rng, n_rows, n_cols, &matching, target_edges, CostRule::Cents);
    proof {
        assert forall|k: int| 0 <= k < min_dim implies #[trigger] holds_cell(entries@, k, shuffled(seed, n_cols as nat)[k] as int) by {
            assert(entries@.contains(matching@[k]));
            let i = choose|i: int| 0 <= i < entries@.len() && entries@[i] == matching@[k];
            assert(entries@[i].0 == k && entries@[i].1 == shuffled(seed, n_cols as nat)[k]);
        }
    }
    CostMatrix { n_rows, n_cols, entries }
}

/// The matching of `diagonal_dominant_matrix(seed, n, ..)`: the diagonal,
/// each cell with one low cost draw.
pub open spec fn diagonal_matching(seed: u64, n: usize) -> Seq<(usize, usize, u32)> {
    Seq::new(n as nat, |k: int| (k as usize, k as usize, low_cents_from(state_after(seed, (k + 1) as nat))))
}

/// The entries of `diagonal_dominant_matrix(seed, n, target)`.
pub open spec fn diagonal_dominant_entries(seed: u64, n: usize, target: usize) -> Seq<(usize, usize, u32)> {
    completed_entries(state_after(seed, n as nat), n, n, diagonal_matching(seed, n), target, CostRule::OffDiagonal)
}

/// Generates a diagonal-dominant `n x n` cost matrix holding
/// `min(max(target_edges, n), n * n)` distinct cells.
///
/// The whole diagonal is present with low costs (hundredths in `[1, 20]`);
/// every other cell has a high cost (hundredths in `[400, 999]`).
pub fn diagonal_dominant_matrix(seed: u64, n: usize, target_edges: usize) -> (m: CostMatrix)
    ensures
        m.n_rows == n,
        m.n_cols == n,
        m.entries@ == diagonal_dominant_entries(seed, n, target_edges),
        m.entries@.len() == edge_total(target_edges, n, n, n),
        row_major(m.entries@),
        entries_in_shape(m.entries@, n as nat, n as nat),
        holds_matching(m.entries@, diagonal_matching(seed, n), n),
        forall|k: int| 0 <= k < n ==> #[trigger] holds_cell(m.entries@, k, k),
        forall|k: int|
            0 <= k < m.entries@.len() ==> {
                let e = #[trigger] m.entries@[k];
                if e.0 == e.1 {
                    1 <= e.2 <= 20
                } else {
                    400 <= e.2 <= 999
                }
            },
{
    let ghost spec_matching = diagonal_matching(seed, n);
    let mut rng = XorShift64::new(seed);
    let mut matching: Vec<(usize, usize, u32)> = Vec::new();
    let mut i: usize = 0;
    while i < n
        invariant
            i <= n,
            spec_matching == diagonal_matching(seed, n),
            rng.state() == state_after(seed, i as nat),
            matching@.len() == i,
            forall|k: int| 0 <= k < i ==> #[trigger] matching@[k] == spec_matching[k],
        decreases n - i,
    {
        let raw: u64 = rng.next_value() % 20 + 1;
        matching.push((i, i, raw as u32));
        i = i + 1;
    }
    assert(matching@ =~= spec_matching);
    let entries = complete_matrix(&mut rng, n, n, &matching, target_edges, CostRule::OffDiagonal);
    proof {
        assert forall|k: int| 0 <= k < n implies #[trigger] holds_cell(entries@, k, k) by {
            assert(entries@.contains(matching@[k]));
            let i = choose|i: int| 0 <= i < entries@.len() && entries@[i] == matching@[k];
            assert(entries@[i].0 == k && entries@[i].1 == k);
        }
        assert forall|k: int| 0 <= k < entries@.len() implies {
            let e = #[trigger] entries@[k];
            if e.0 == e.1 {
                1 <= e.2 <= 20
            } else {
                400 <= e.2 <= 999
            }
        } by {
            assert(cell_law(CostRule::OffDiagonal, entries@[k].0 as int, entries@[k].1 as int, entries@[k].2));
        }
    }
    CostMatrix { n_rows: n, n_cols: n, entries }
}

/// The matching of `near_degenerate_matrix(seed, n, ..)`: laid out as in
/// `sparse_square_matching`, with noise codes in place of costs.
pub open spec fn near_degenerate_matching(seed: u64, n: usize) -> Seq<(usize, usize, u32)> {
    let perm = shuffled(seed, n as nat);
    let p = shuffle_draws(n as nat);
    Seq::new(n as nat, |k: int| (k as usize, perm[k], noise_from(state_after(seed, (p + k + 1) as nat))))
}

/// The entries of `near_degenerate_matrix(seed, n, target)`.
pub open spec fn near_degenerate_entries(seed: u64, n: usize, target: usize) -> Seq<(usize, usize, u32)> {
    let after = state_after(seed, (shuffle_draws(n as nat) + n) as nat);
    completed_entries(after, n, n, near_degenerate_matching(seed, n), target, CostRule::Noise)
}

/// Generates a near-degenerate `n x n` cost matrix holding
/// `min(max(target_edges, n), n * n)` distinct cells, where every cost is
/// about `5.0`.
///
/// The third component of each entry is a noise code `d` in `{0, 1, 2}`,
/// standing for the cost `5.0 - 0.01 + d * 0.01`. A random permutation is
/// embedded for feasibility.
pub fn near_degenerate_matrix(seed: u64, n: usize, target_edges: usize) -> (m: CostMatrix)
    ensures
        m.n_rows == n,
        m.n_cols == n,
        m.entries@ == near_degenerate_entries(seed, n, target_edges),
        m.entries@.len() == edge_total(target_edges, n, n, n),
        row_major(m.entries@),
        entries_in_shape(m.entries@, n as nat, n as nat),
        holds_matching(m.entries@, near_degenerate_matching(seed, n), n),
        is_permutation(shuffled(seed, n as nat), n as nat),
        forall|k: int| 0 <= k < n ==> #[trigger] holds_cell(m.entries@, k, shuffled(seed, n as nat)[k] as int),
        forall|k: int| 0 <= k < m.entries@.len() ==> (#[trigger] m.entries@[k]).2 <= 2,
{
    let ghost spec_matching = near_degenerate_matching(seed, n);
    let mut rng = XorShift64::new(seed);
    let perm = random_permutation(&mut rng, n);
    let ghost p = shuffle_draws(n as nat);
    let mut matching: Vec<(usize, usize, u32)> = Vec::new();
    let mut row: usize = 0;
    while row < n
        invariant
            row <= n,
            spec_matching == near_degenerate_matching(seed, n),
            perm@ == shuffled(seed, n as nat),
            is_permutation(perm@, n as nat),
            p == shuffle_draws(n as nat),
            rng.state() == state_after(seed, (p + row) as nat),
            matching@.len() == row,
            forall|k: int| 0 <= k < row ==> #[trigger] matching@[k] == spec_matching[k],
        decreases n - row,
    {
        let noise: u64 = rng.next_value() % 3;
        matching.push((row, perm[row], noise as u32));
        row = row + 1;
    }
    assert(matching@ =~= spec_matching);
    let entries = complete_matrix(&mut rng, n, n, &matching, target_edges, CostRule::Noise);
    proof {
        assert forall|k: int| 0 <= k < n implies #[trigger] holds_cell(entries@, k, shuffled(seed, n as nat)[k] as int) by {
            assert(entries@.contains(matching@[k]));
            let i = choose|i: int| 0 <= i < entries@.len() && entries@[i] == matching@[k];
            assert(entries@[i].0 == k && entries@[i].1 == shuffled(seed, n as nat)[k]);
        }
    }
    CostMatrix { n_rows: n, n_cols: n, entries }
}

/// The cells of `dense_square_matrix(seed, n)` in row-major order: cell `k`
/// holds the cost drawn by the `k + 1`-th draw.
pub open spec fn dense_square_cells(seed: u64, n: usize) -> Seq<u32> {
    Seq::new((n * n) as nat, |k: int| cents_from(state_after(seed, (k + 1) as nat)))
}

/// Generates the costs of a random dense `n x n` matrix, in row-major order:
/// every cell gets a random cost in hundredths in `[1, 999]`.
pub fn dense_square_matrix(seed: u64, n: usize) -> (cells: Vec<u32>)
    requires
        n * n <= usize::MAX,
    ensures
        cells@ == dense_square_cells(seed, n),
        cells@.len() == n * n,
        forall|k: int| 0 <= k < cells@.len() ==> 1 <= #[trigger] cells@[k] <= 999,
        forall|k: int| 0 <= k < n * n ==> #[trigger] cells@[k] as int == (state_after(seed, (k + 1) as nat) as int) % 999 + 1,
{
    let mut rng = XorShift64::new(seed);
    let count: usize = n * n;
    let mut cells: Vec<u32> = Vec::new();
    let mut k: usize = 0;
    while k < count
        invariant
            k <= count,
            count == n * n,
            rng.state() == state_after(seed, k as nat),
            cells@.len() == k,
            forall|i: int| 0 <= i < k ==> #[trigger] cells@[i] == cents_from(state_after(seed, (i + 1) as nat)),
        decreases count - k,
    {
        let cost: u32 = random_cost_cents(&mut rng);
        cells.push(cost);
        k = k + 1;
    }
    assert(cells@ =~= dense_square_cells(seed, n));
    cells
}

/// Law: for every row `k < n`, the square sparse matrix holds the cell
/// `(k, perm[k])`, where `perm` is the shuffle of `[0, n)` drawn from the
/// seed, a permutation: the matrix contains a perfect matching.
pub proof fn lemma_sparse_square_embeds_permutation(seed: u64, n: usize, target: usize)
    ensures
        is_permutation(shuffled(seed, n as nat), n as nat),
        forall|k: int| 0 <= k < n ==> #[trigger] holds_cell(sparse_square_entries(seed, n, target), k, shuffled(seed, n as nat)[k] as int),
{
        lemma_shuffled_is_permutation(seed, n as nat);
    let matching = sparse_square_matching(seed, n);
    lemma_completed_entries_hold_matching(state_after(seed, (shuffle_draws(n as nat) + n) as nat), n, n, matching, target, CostRule::Cents);
    assert forall|k: int| 0 <= k < n implies #[trigger] holds_cell(sparse_square_entries(seed, n, target), k, shuffled(seed, n as nat)[k] as int) by {
        assert(sparse_square_entries(seed, n, target).contains(matching[k]));
        let i = choose|i: int| 0 <= i < sparse_square_entries(seed, n, target).len() && sparse_square_entries(seed, n, target)[i] == matching[k];
        assert(sparse_square_entries(seed, n, target)[i].0 == k && sparse_square_entries(seed, n, target)[i].1 == shuffled(seed, n as nat)[k] as int);
    }
}

/// Law: for every row `k < min(n_rows, n_cols)`, the rectangular matrix holds
/// the cell `(k, perm[k])`, where `perm` is the shuffle of the `n_cols` columns
/// drawn from the seed: a matching of size `min(n_rows, n_cols)` into distinct
/// columns.
pub proof fn lemma_rectangular_embeds_matching(seed: u64, n_rows: usize, n_cols: usize, target: usize)
    ensures
        is_permutation(shuffled(seed, n_cols as nat), n_cols as nat),
        forall|k: int| 0 <= k < (if n_rows < n_cols { n_rows } else { n_cols }) ==> #[trigger] holds_cell(rectangular_entries(seed, n_rows, n_cols, target), k, shuffled(seed, n_cols as nat)[k] as int),
{
        lemma_shuffled_is_permutation(seed, n_cols as nat);
    let matching = rectangular_matching(seed, n_rows, n_cols);
    lemma_completed_entries_hold_matching(state_after(seed, (shuffle_draws(n_cols as nat) + (if n_rows < n_cols { n_rows } else { n_cols })) as nat), n_rows, n_cols, matching, target, CostRule::Cents);
    assert forall|k: int| 0 <= k < (if n_rows < n_cols { n_rows } else { n_cols }) implies #[trigger] holds_cell(rectangular_entries(seed, n_rows, n_cols, target), k, shuffled(seed, n_cols as nat)[k] as int) by {
        assert(rectangular_entries(seed, n_rows, n_cols, target).contains(matching[k]));
        let i = choose|i: int| 0 <= i < rectangular_entries(seed, n_rows, n_cols, target).len() && rectangular_entries(seed, n_rows, n_cols, target)[i] == matching[k];
        assert(rectangular_entries(seed, n_rows, n_cols, target)[i].0 == k && rectangular_entries(seed, n_rows, n_cols, target)[i].1 == shuffled(seed, n_cols as nat)[k] as int);
    }
}

/// Law: the diagonal-dominant matrix holds every diagonal cell `(k, k)`.
pub proof fn lemma_diagonal_dominant_holds_diagonal(seed: u64, n: usize, target: usize)
    ensures
        forall|k: int| 0 <= k < n ==> #[trigger] holds_cell(diagonal_dominant_entries(seed, n, target), k, k),
{
    let matching = diagonal_matching(seed, n);
    lemma_completed_entries_hold_matching(state_after(seed, n as nat), n, n, matching, target, CostRule::OffDiagonal);
    assert forall|k: int| 0 <= k < n implies #[trigger] holds_cell(diagonal_dominant_entries(seed, n, target), k, k) by {
        assert(diagonal_dominant_entries(seed, n, target).contains(matching[k]));
        let i = choose|i: int| 0 <= i < diagonal_dominant_entries(seed, n, target).len() && diagonal_dominant_entries(seed, n, target)[i] == matching[k];
        assert(diagonal_dominant_entries(seed, n, target)[i].0 == k && diagonal_dominant_entries(seed, n, target)[i].1 == k);
    }
}

/// Law: for every row `k < n`, the near-degenerate matrix holds the cell
/// `(k, perm[k])`, where `perm` is the shuffle of `[0, n)` drawn from the
/// seed, a permutation: the matrix contains a perfect matching.
pub proof fn lemma_near_degenerate_embeds_permutation(seed: u64, n: usize, target: usize)
    ensures
        is_permutation(shuffled(seed, n as nat), n as nat),
        forall|k: int| 0 <= k < n ==> #[trigger] holds_cell(near_degenerate_entries(seed, n, target), k, shuffled(seed, n as nat)[k] as int),
{
        lemma_shuffled_is_permutation(seed, n as nat);
    let matching = near_degenerate_matching(seed, n);
    lemma_completed_entries_hold_matching(state_after(seed, (shuffle_draws(n as nat) + n) as nat), n, n, matching, target, CostRule::Noise);
    assert forall|k: int| 0 <= k < n implies #[trigger] holds_cell(near_degenerate_entries(seed, n, target), k, shuffled(seed, n as nat)[k] as int) by {
        assert(near_degenerate_entries(seed, n, target).contains(matching[k]));
        let i = choose|i: int| 0 <= i < near_degenerate_entries(seed, n, target).len() && near_degenerate_entries(seed, n, target)[i] == matching[k];
        assert(near_degenerate_entries(seed, n, target)[i].0 == k && near_degenerate_entries(seed, n, target)[i].1 == shuffled(seed, n as nat)[k] as int);
    }
}

/// Law: cell `k` of the dense matrix is the cost drawn by the `k + 1`-th step
/// of the stream started at the seed: that step's state modulo 999, plus one.
pub proof fn lemma_dense_cells_are_successive_draws(seed: u64, n: usize)
    ensures
        dense_square_cells(seed, n).len() == n * n,
        forall|k: int| 0 <= k < n * n ==> #[trigger] dense_square_cells(seed, n)[k] as int == (state_after(seed, (k + 1) as nat) as int) % 999 + 1,
{
    assert(n * n >= 0) by (nonlinear_arith);
}

} // verus!
