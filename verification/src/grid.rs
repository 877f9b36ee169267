use vstd::prelude::*;

use crate::rng::{
    cents_from, index_from, lemma_index_from_is_remainder, random_index, xorshift_step, XorShift64,
};

verus! {

/// A row of a sparse grid: `(column, cost)` pairs with strictly increasing
/// columns, all below `n_cols`.
pub open spec fn row_ok(row: Seq<(usize, u32)>, n_cols: usize) -> bool {
    &&& forall|i: int| 0 <= i < row.len() ==> (#[trigger] row[i]).0 < n_cols
    &&& forall|i: int, j: int| 0 <= i < j < row.len() ==> (#[trigger] row[i]).0 < (#[trigger] row[j]).0
}

/// A sparse grid of `n_rows` well-formed rows.
pub open spec fn grid_ok(g: Seq<Seq<(usize, u32)>>, n_rows: usize, n_cols: usize) -> bool {
    &&& g.len() == n_rows
    &&& forall|r: int| 0 <= r < g.len() ==> row_ok(#[trigger] g[r], n_cols)
}

/// The rows of a vector of rows, as sequences.
pub open spec fn rows_view(v: Seq<Vec<(usize, u32)>>) -> Seq<Seq<(usize, u32)>> {
    Seq::new(v.len(), |i: int| v[i]@)
}

/// The number of cells held by the first `k` rows.
pub open spec fn cell_total(g: Seq<Seq<(usize, u32)>>, k: nat) -> nat
    decreases k,
{
    if k == 0 {
        0
    } else {
        cell_total(g, (k - 1) as nat) + g[k - 1].len()
    }
}

/// Scans `row` from position `idx` for the first free column at or after `c`:
/// the free column found and the position at which it would be inserted.
pub open spec fn scan_free(row: Seq<(usize, u32)>, c: int, idx: int) -> (int, int)
    decreases row.len() - idx,
{
    if idx < 0 || idx >= row.len() || row[idx].0 > c {
        (c, idx)
    } else if row[idx].0 == c {
        scan_free(row, c + 1, idx + 1)
    } else {
        scan_free(row, c, idx + 1)
    }
}

/// The row after `r`, wrapping around after the last one.
pub open spec fn next_row(r: int, n_rows: usize) -> int {
    if r + 1 >= n_rows {
        0
    } else {
        r + 1
    }
}

/// The first free cell at or after `(r, c)` in row-major order, wrapping
/// around, looking at most `visits` rows beyond row `r`: its row, its column
/// and its insertion position in that row.
pub open spec fn find_cell(g: Seq<Seq<(usize, u32)>>, n_rows: usize, n_cols: usize, r: int, c: int, visits: nat) -> (int, int, int)
    decreases visits,
{
    let found = scan_free(g[r], c, 0);
    if found.0 < n_cols || visits == 0 {
        (r, found.0, found.1)
    } else {
        find_cell(g, n_rows, n_cols, next_row(r, n_rows), 0, (visits - 1) as nat)
    }
}

/// Lemma: scanning a well-formed row from a position before which every column
/// is below `c` finds a column at or after `c` that the row does not hold, and
/// an insertion position that keeps the row sorted.
proof fn lemma_scan_free(row: Seq<(usize, u32)>, n_cols: usize, c: int, idx: int)
    requires
        row_ok(row, n_cols),
        0 <= idx <= row.len(),
        0 <= c <= n_cols,
        forall|j: int| 0 <= j < idx ==> (#[trigger] row[j]).0 < c,
    ensures
        ({
            let res = scan_free(row, c, idx);
            &&& c <= res.0 <= n_cols
            &&& idx <= res.1 <= row.len()
            &&& forall|j: int| 0 <= j < res.1 ==> (#[trigger] row[j]).0 < res.0
            &&& forall|j: int| res.1 <= j < row.len() ==> (#[trigger] row[j]).0 > res.0
            &&& (c <= idx ==> res.0 <= row.len())
        }),
    decreases row.len() - idx,
{
    if idx >= row.len() || row[idx].0 > c {
        assert forall|j: int| idx <= j < row.len() implies (#[trigger] row[j]).0 > c by {
            if j > idx {
                assert(row[idx].0 < row[j].0);
            }
        }
    } else if row[idx].0 == c {
        lemma_scan_free(row, n_cols, c + 1, idx + 1);
    } else {
        lemma_scan_free(row, n_cols, c, idx + 1);
    }
}

/// Finds the first free column at or after `c0` in `row`, and where to insert
/// it.
fn scan_row(row: &Vec<(usize, u32)>, c0: usize, n_cols: usize) -> (res: (usize, usize))
    requires
        row_ok(row@, n_cols),
        c0 <= n_cols,
    ensures
        (res.0 as int, res.1 as int) == scan_free(row@, c0 as int, 0),
{
    let mut c: usize = c0;
    let mut idx: usize = 0;
    while idx < row.len() && row[idx].0 <= c
        invariant
            row_ok(row@, n_cols),
            c0 <= c <= n_cols,
            idx <= row@.len(),
            scan_free(row@, c as int, idx as int) == scan_free(row@, c0 as int, 0),
        decreases row@.len() - idx,
    {
        if row[idx].0 == c {
            c = c + 1;
        }
        idx = idx + 1;
    }
    (c, idx)
}

/// The steps from row `r` to row `j` going forward and wrapping around, in
/// `[1, n_rows]`.
spec fn row_distance(r: int, j: int, n_rows: usize) -> int {
    if j > r {
        j - r
    } else {
        j - r + n_rows
    }
}

/// Lemma: when every row holds at least `n_cols` cells, the first `k` rows
/// hold at least `k * n_cols`.
proof fn lemma_full_rows_total(g: Seq<Seq<(usize, u32)>>, n_cols: usize, k: nat)
    requires
        k <= g.len(),
        forall|r: int| 0 <= r < k ==> (#[trigger] g[r]).len() >= n_cols,
    ensures
        cell_total(g, k) >= k * n_cols,
    decreases k,
{
    if k > 0 {
        let k1 = (k - 1) as nat;
        lemma_full_rows_total(g, n_cols, k1);
        assert(g[k1 as int].len() >= n_cols);
        assert(cell_total(g, k) == cell_total(g, k1) + g[k1 as int].len());
        assert(k * n_cols == k1 * n_cols + n_cols) by (nonlinear_arith)
            requires
                k == k1 + 1,
        ;
    } else {
        assert(0 * n_cols == 0) by (nonlinear_arith);
    }
}

/// Finds the first free cell at or after `(r0, c0)` in row-major order,
/// wrapping around; the grid must have a free cell.
fn find_free_cell(grid: &Vec<Vec<(usize, u32)>>, n_rows: usize, n_cols: usize, r0: usize, c0: usize) -> (res: (usize, usize, usize))
    requires
        grid_ok(rows_view(grid@), n_rows, n_cols),
        r0 < n_rows,
        c0 < n_cols,
        cell_total(rows_view(grid@), n_rows as nat) < n_rows * n_cols,
    ensures
        (res.0 as int, res.1 as int, res.2 as int)
            == find_cell(rows_view(grid@), n_rows, n_cols, r0 as int, c0 as int, n_rows as nat),
        res.0 < n_rows,
        res.1 < n_cols,
        res.2 <= grid@[res.0 as int]@.len(),
        forall|j: int| 0 <= j < res.2 ==> (#[trigger] grid@[res.0 as int]@[j]).0 < res.1,
        forall|j: int| res.2 <= j < grid@[res.0 as int]@.len() ==> (#[trigger] grid@[res.0 as int]@[j]).0 > res.1,
{
    let ghost g = rows_view(grid@);
    let ghost j: int = choose|j: int| 0 <= j < n_rows && #[trigger] g[j].len() < n_cols;
    proof {
        if !(exists|j: int| 0 <= j < n_rows && #[trigger] g[j].len() < n_cols) {
            lemma_full_rows_total(g, n_cols, n_rows as nat);
        }
    }
    let mut r: usize = r0;
    let mut c: usize = c0;
    let mut visits: usize = n_rows;
    loop
        invariant
            g == rows_view(grid@),
            grid_ok(g, n_rows, n_cols),
            0 <= j < n_rows,
            g[j].len() < n_cols,
            r < n_rows,
            c < n_cols,
            visits <= n_rows,
            find_cell(g, n_rows, n_cols, r as int, c as int, visits as nat)
                == find_cell(g, n_rows, n_cols, r0 as int, c0 as int, n_rows as nat),
            (r == j && c == 0) || 1 <= row_distance(r as int, j, n_rows) <= visits,
        decreases visits,
    {
        assert(g[r as int] == grid@[r as int]@);
        let found = scan_row(&grid[r], c, n_cols);
        proof {
            lemma_scan_free(g[r as int], n_cols, c as int, 0);
        }
        if found.0 < n_cols || visits == 0 {
            return (r, found.0, found.1);
        }
        r = if r + 1 >= n_rows { 0 } else { r + 1 };
        c = 0;
        visits = visits - 1;
    }
}

/// A low diagonal cost drawn from `x`: hundredths in `[1, 20]`.
pub open spec fn low_cents_from(x: u64) -> u32 {
    (x % 20 + 1) as u32
}

/// A high off-diagonal cost drawn from `x`: hundredths in `[400, 999]`.
pub open spec fn high_cents_from(x: u64) -> u32 {
    (x % 600 + 400) as u32
}

/// A noise code drawn from `x`: `0`, `1` or `2`, standing for a cost of
/// `4.99`, `5.00` or `5.01`.
pub open spec fn noise_from(x: u64) -> u32 {
    (x % 3) as u32
}

/// A within-block cost drawn from `x`: hundredths in `[1, 100]`.
pub open spec fn within_cents_from(x: u64) -> u32 {
    (x % 100 + 1) as u32
}

/// An across-block cost drawn from `x`: hundredths in `[600, 999]`.
pub open spec fn across_cents_from(x: u64) -> u32 {
    (x % 400 + 600) as u32
}

/// The block of index `i` when `n_blocks` blocks hold `block_size` indices
/// each and the last block also takes the remainder.
pub open spec fn block_index(i: int, n_blocks: usize, block_size: usize) -> int {
    if block_size == 0 || i / (block_size as int) >= n_blocks - 1 {
        n_blocks - 1
    } else {
        i / (block_size as int)
    }
}

/// How the cost of an extra cell is drawn.
#[derive(Clone, Copy)]
pub enum CostRule {
    /// Hundredths in `[1, 999]`.
    Cents,
    /// High costs, hundredths in `[400, 999]`, for cells off a full diagonal.
    OffDiagonal,
    /// Noise codes in `{0, 1, 2}`.
    Noise,
    /// Within-block costs (hundredths in `[1, 100]`) for cells whose row and
    /// column fall in the same block, across-block costs (hundredths in
    /// `[600, 999]`) otherwise.
    Blocks { n_blocks: usize, block_size: usize },
}

/// The rule can be applied.
pub open spec fn rule_ok(rule: CostRule) -> bool {
    match rule {
        CostRule::Blocks { n_blocks, block_size } => n_blocks > 0,
        _ => true,
    }
}

/// The cost the rule gives to the cell `(r, c)` from the draw `x`.
pub open spec fn rule_cost(rule: CostRule, r: int, c: int, x: u64) -> u32 {
    match rule {
        CostRule::Cents => cents_from(x),
        CostRule::OffDiagonal => high_cents_from(x),
        CostRule::Noise => noise_from(x),
        CostRule::Blocks { n_blocks, block_size } => if block_index(r, n_blocks, block_size) == block_index(c, n_blocks, block_size) {
            within_cents_from(x)
        } else {
            across_cents_from(x)
        },
    }
}

/// The cost bands every cell of a grid filled under `rule` keeps: the band of
/// the matching and the band of the extra cells agree.
pub open spec fn cell_law(rule: CostRule, r: int, c: int, w: u32) -> bool {
    match rule {
        CostRule::Cents => 1 <= w <= 999,
        CostRule::OffDiagonal => if r == c {
            1 <= w <= 20
        } else {
            400 <= w <= 999
        },
        CostRule::Noise => w <= 2,
        CostRule::Blocks { n_blocks, block_size } => if block_index(r, n_blocks, block_size) == block_index(c, n_blocks, block_size) {
            1 <= w <= 100
        } else {
            600 <= w <= 999
        },
    }
}

/// Every cell of `g` keeps the cost bands of `rule`.
pub open spec fn grid_law(g: Seq<Seq<(usize, u32)>>, rule: CostRule) -> bool {
    forall|r: int, i: int| 0 <= r < g.len() && 0 <= i < g[r].len() ==> cell_law(rule, r, (#[trigger] g[r][i]).0 as int, g[r][i].1)
}

/// `row` holds column `c`.
pub open spec fn row_has_col(row: Seq<(usize, u32)>, c: int) -> bool {
    exists|i: int| 0 <= i < row.len() && (#[trigger] row[i]).0 == c
}

/// `g` with the cell `(c, w)` inserted at position `i` of row `r`.
pub open spec fn insert_cell(g: Seq<Seq<(usize, u32)>>, r: int, i: int, c: int, w: u32) -> Seq<Seq<(usize, u32)>> {
    g.update(r, g[r].insert(i, (c as usize, w)))
}

/// `k` extra cells added to `g` from the stream at state `s`, and the state
/// after them: each draws a row and a column, moves to the first free cell at
/// or after that position in row-major order (wrapping around), then draws
/// its cost under `rule`.
pub open spec fn extra_fill(g: Seq<Seq<(usize, u32)>>, s: u64, k: nat, n_rows: usize, n_cols: usize, rule: CostRule) -> (Seq<Seq<(usize, u32)>>, u64)
    decreases k,
{
    if k == 0 {
        (g, s)
    } else {
        let s1 = xorshift_step(s);
        let s2 = xorshift_step(s1);
        let cell = find_cell(g, n_rows, n_cols, index_from(s1, n_rows) as int, index_from(s2, n_cols) as int, n_rows as nat);
        let s3 = xorshift_step(s2);
        extra_fill(
            insert_cell(g, cell.0, cell.2, cell.1, rule_cost(rule, cell.0, cell.1, s3)),
            s3,
            (k - 1) as nat,
            n_rows,
            n_cols,
            rule,
        )
    }
}

/// Draws the cost of the cell `(r, c)` under `rule`.
fn draw_cost(rng: &mut XorShift64, rule: CostRule, r: usize, c: usize) -> (w: u32)
    requires
        rule_ok(rule),
    ensures
        final(rng).state() == xorshift_step(old(rng).state()),
        w == rule_cost(rule, r as int, c as int, final(rng).state()),
{
    let x: u64 = rng.next_value();
    match rule {
        CostRule::Cents => (x % 999 + 1) as u32,
        CostRule::OffDiagonal => (x % 600 + 400) as u32,
        CostRule::Noise => (x % 3) as u32,
        CostRule::Blocks { n_blocks, block_size } => {
            let rb: usize = if block_size == 0 || r / block_size >= n_blocks - 1 {
                n_blocks - 1
            } else {
                r / block_size
            };
            let cb: usize = if block_size == 0 || c / block_size >= n_blocks - 1 {
                n_blocks - 1
            } else {
                c / block_size
            };
            if rb == cb {
                (x % 100 + 1) as u32
            } else {
                (x % 400 + 600) as u32
            }
        },
    }
}

/// Lemma: growing one row by one cell grows the total by one.
proof fn lemma_cell_total_grow(g: Seq<Seq<(usize, u32)>>, r: int, row: Seq<(usize, u32)>, k: nat)
    requires
        0 <= r < g.len(),
        k <= g.len(),
        row.len() == g[r].len() + 1,
    ensures
        cell_total(g.update(r, row), k) == cell_total(g, k) + (if r < k { 1int } else { 0int }),
    decreases k,
{
    if k > 0 {
        lemma_cell_total_grow(g, r, row, (k - 1) as nat);
    }
}

/// Adds `count` extra cells to the grid, as `extra_fill` describes.
pub fn fill_extras(grid: &mut Vec<Vec<(usize, u32)>>, rng: &mut XorShift64, n_rows: usize, n_cols: usize, count: usize, rule: CostRule)
    requires
        grid_ok(rows_view(old(grid)@), n_rows, n_cols),
        cell_total(rows_view(old(grid)@), n_rows as nat) + count <= n_rows * n_cols,
        rule_ok(rule),
        rule is OffDiagonal ==> n_rows == n_cols && forall|r: int| 0 <= r < n_rows ==> row_has_col(#[trigger] rows_view(old(grid)@)[r], r),
        grid_law(rows_view(old(grid)@), rule),
    ensures
        (rows_view(final(grid)@), final(rng).state())
            == extra_fill(rows_view(old(grid)@), old(rng).state(), count as nat, n_rows, n_cols, rule),
        grid_ok(rows_view(final(grid)@), n_rows, n_cols),
        cell_total(rows_view(final(grid)@), n_rows as nat) == cell_total(rows_view(old(grid)@), n_rows as nat) + count,
        forall|r: int, x: (usize, u32)| 0 <= r < n_rows && #[trigger] rows_view(old(grid)@)[r].contains(x) ==> rows_view(final(grid)@)[r].contains(x),
        grid_law(rows_view(final(grid)@), rule),
{
    let ghost g0 = rows_view(grid@);
    let ghost s0 = rng.state();
    let mut t: usize = 0;
    while t < count
        invariant
            t <= count,
            grid_ok(rows_view(grid@), n_rows, n_cols),
            cell_total(rows_view(grid@), n_rows as nat) == cell_total(g0, n_rows as nat) + t,
            cell_total(g0, n_rows as nat) + count <= n_rows * n_cols,
            rule_ok(rule),
            rule is OffDiagonal ==> n_rows == n_cols && forall|r: int| 0 <= r < n_rows ==> row_has_col(#[trigger] rows_view(grid@)[r], r),
            grid_law(rows_view(grid@), rule),
            forall|r: int, x: (usize, u32)| 0 <= r < n_rows && #[trigger] g0[r].contains(x) ==> rows_view(grid@)[r].contains(x),
            extra_fill(rows_view(grid@), rng.state(), (count - t) as nat, n_rows, n_cols, rule)
                == extra_fill(g0, s0, count as nat, n_rows, n_cols, rule),
        decreases count - t,
    {
        let ghost g = rows_view(grid@);
        let ghost s = rng.state();
        assert(n_rows > 0 && n_cols > 0) by (nonlinear_arith)
            requires
                cell_total(g0, n_rows as nat) + count <= n_rows * n_cols,
                t < count,
        ;
        let r0: usize = random_index(rng, n_rows);
        let c0: usize = random_index(rng, n_cols);
        let found = find_free_cell(grid, n_rows, n_cols, r0, c0);
        let r: usize = found.0;
        let c: usize = found.1;
        let idx: usize = found.2;
        let w: u32 = draw_cost(rng, rule, r, c);
        let ghost old_row = g[r as int];
        assert(old_row == grid@[r as int]@);
        grid[r].insert(idx, (c, w));
        let ghost new_row = old_row.insert(idx as int, (c, w));
        assert(rows_view(grid@) =~= insert_cell(g, r as int, idx as int, c as int, w));
        assert(rows_view(grid@) =~= g.update(r as int, new_row));
        proof {
            assert forall|i: int, j: int| 0 <= i < j < new_row.len() implies (#[trigger] new_row[i]).0 < (#[trigger] new_row[j]).0 by {
                if j < idx {
                } else if i > idx {
                    assert(old_row[i - 1].0 < old_row[j - 1].0);
                } else if i == idx {
                    assert(old_row[j - 1].0 > c);
                } else if j == idx {
                    assert(old_row[i].0 < c);
                } else {
                    assert(old_row[i].0 < old_row[j - 1].0);
                }
            }
            assert(row_ok(new_row, n_cols));
            lemma_cell_total_grow(g, r as int, new_row, n_rows as nat);
            assert forall|rr: int, x: (usize, u32)| 0 <= rr < n_rows && #[trigger] g0[rr].contains(x) implies rows_view(grid@)[rr].contains(x) by {
                assert(g[rr].contains(x));
                if rr == r {
                    let k = choose|k: int| 0 <= k < old_row.len() && old_row[k] == x;
                    if k < idx {
                        assert(new_row[k] == x);
                    } else {
                        assert(new_row[k + 1] == x);
                    }
                }
            }
            assert forall|i: int| 0 <= i < old_row.len() implies old_row[i].0 != c by {
                if i < idx {
                    assert(old_row[i].0 < c);
                } else {
                    assert(old_row[i].0 > c);
                }
            }
            if rule is OffDiagonal {
                assert(row_has_col(g[r as int], r as int));
                assert forall|rr: int| 0 <= rr < n_rows implies row_has_col(#[trigger] rows_view(grid@)[rr], rr) by {
                    assert(row_has_col(g[rr], rr));
                    if rr == r {
                        let k = choose|k: int| 0 <= k < old_row.len() && (#[trigger] old_row[k]).0 == rr;
                        if k < idx {
                            assert(new_row[k].0 == rr);
                        } else {
                            assert(new_row[k + 1].0 == rr);
                        }
                    }
                }
            }
            assert forall|rr: int, i: int| 0 <= rr < rows_view(grid@).len() && 0 <= i < rows_view(grid@)[rr].len() implies cell_law(rule, rr, (#[trigger] rows_view(grid@)[rr][i]).0 as int, rows_view(grid@)[rr][i].1) by {
                if rr == r {
                    if i < idx {
                        assert(new_row[i] == old_row[i]);
                    } else if i > idx {
                        assert(new_row[i] == old_row[i - 1]);
                    }
                }
            }
        }
        t = t + 1;
    }
}

/// The grid whose row `r` holds the matching entry `(r, c, w)` of `m` as the
/// single cell `(c, w)`, for `r < m.len()`; the other rows are empty.
pub open spec fn grid_of_matching(n_rows: usize, m: Seq<(usize, usize, u32)>) -> Seq<Seq<(usize, u32)>> {
    Seq::new(n_rows as nat, |r: int| if r < m.len() { seq![(m[r].1, m[r].2)] } else { Seq::empty() })
}

proof fn lemma_matching_total(n_rows: usize, m: Seq<(usize, usize, u32)>, k: nat)
    requires
        m.len() <= n_rows,
        k <= n_rows,
    ensures
        cell_total(grid_of_matching(n_rows, m), k) == (if k < m.len() { k } else { m.len() }),
    decreases k,
{
    if k > 0 {
        lemma_matching_total(n_rows, m, (k - 1) as nat);
    }
}

/// Builds the grid of a matching whose `k`-th entry lies in row `k`.
pub fn matching_grid(n_rows: usize, n_cols: usize, matching: &Vec<(usize, usize, u32)>) -> (grid: Vec<Vec<(usize, u32)>>)
    requires
        matching@.len() <= n_rows,
        forall|k: int| 0 <= k < matching@.len() ==> (#[trigger] matching@[k]).1 < n_cols,
    ensures
        rows_view(grid@) == grid_of_matching(n_rows, matching@),
        grid_ok(rows_view(grid@), n_rows, n_cols),
        cell_total(rows_view(grid@), n_rows as nat) == matching@.len(),
{
    let mut grid: Vec<Vec<(usize, u32)>> = Vec::new();
    let mut r: usize = 0;
    while r < n_rows
        invariant
            r <= n_rows,
            matching@.len() <= n_rows,
            grid@.len() == r,
            forall|i: int| 0 <= i < r ==> (#[trigger] grid@[i])@ == grid_of_matching(n_rows, matching@)[i],
        decreases n_rows - r,
    {
        if r < matching.len() {
            let e = matching[r];
            let mut row: Vec<(usize, u32)> = Vec::new();
            row.push((e.1, e.2));
            assert(row@ =~= seq![(e.1, e.2)]);
            grid.push(row);
        } else {
            let row: Vec<(usize, u32)> = Vec::new();
            assert(row@ =~= Seq::<(usize, u32)>::empty());
            grid.push(row);
        }
        r = r + 1;
    }
    assert(rows_view(grid@) =~= grid_of_matching(n_rows, matching@));
    proof {
        lemma_matching_total(n_rows, matching@, n_rows as nat);
    }
    grid
}

/// `a` comes strictly before `b` in row-major order.
pub open spec fn cell_before(a: (usize, usize, u32), b: (usize, usize, u32)) -> bool {
    a.0 < b.0 || (a.0 == b.0 && a.1 < b.1)
}

/// The entries are in strictly increasing row-major order, so no cell occurs
/// twice.
pub open spec fn row_major(e: Seq<(usize, usize, u32)>) -> bool {
    forall|a: int, b: int| 0 <= a < b < e.len() ==> cell_before(#[trigger] e[a], #[trigger] e[b])
}

/// Every entry lies inside the `n_rows x n_cols` shape.
pub open spec fn entries_in_shape(entries: Seq<(usize, usize, u32)>, n_rows: nat, n_cols: nat) -> bool {
    forall|k: int| 0 <= k < entries.len() ==> (#[trigger] entries[k]).0 < n_rows && entries[k].1 < n_cols
}

/// The cells of the first `k` rows of `g` as `(row, column, cost)` entries, in
/// row-major order.
pub open spec fn flatten_rows(g: Seq<Seq<(usize, u32)>>, k: nat) -> Seq<(usize, usize, u32)>
    decreases k,
{
    if k == 0 {
        Seq::empty()
    } else {
        let r = k - 1;
        flatten_rows(g, (k - 1) as nat) + Seq::new(g[r].len(), |i: int| (r as usize, g[r][i].0, g[r][i].1))
    }
}

/// Lists the cells of the grid row by row.
pub fn flatten_grid(grid: &Vec<Vec<(usize, u32)>>, n_rows: usize, n_cols: usize) -> (entries: Vec<(usize, usize, u32)>)
    requires
        grid_ok(rows_view(grid@), n_rows, n_cols),
    ensures
        entries@ == flatten_rows(rows_view(grid@), n_rows as nat),
        entries@.len() == cell_total(rows_view(grid@), n_rows as nat),
        row_major(entries@),
        entries_in_shape(entries@, n_rows as nat, n_cols as nat),
        forall|k: int| 0 <= k < entries@.len() ==> rows_view(grid@)[(#[trigger] entries@[k]).0 as int].contains((entries@[k].1, entries@[k].2)),
        forall|r: int, x: (usize, u32)| 0 <= r < n_rows && #[trigger] rows_view(grid@)[r].contains(x) ==> entries@.contains((r as usize, x.0, x.1)),
{
    let ghost g = rows_view(grid@);
    let mut entries: Vec<(usize, usize, u32)> = Vec::new();
    let mut r: usize = 0;
    while r < n_rows
        invariant
            g == rows_view(grid@),
            grid_ok(g, n_rows, n_cols),
            r <= n_rows,
            entries@ == flatten_rows(g, r as nat),
            entries@.len() == cell_total(g, r as nat),
            row_major(entries@),
            forall|k: int| 0 <= k < entries@.len() ==> (#[trigger] entries@[k]).0 < r && entries@[k].1 < n_cols,
            forall|k: int| 0 <= k < entries@.len() ==> g[(#[trigger] entries@[k]).0 as int].contains((entries@[k].1, entries@[k].2)),
            forall|rr: int, x: (usize, u32)| 0 <= rr < r && #[trigger] g[rr].contains(x) ==> entries@.contains((rr as usize, x.0, x.1)),
        decreases n_rows - r,
    {
        let row = &grid[r];
        assert(row@ == g[r as int]);
        let ghost before = entries@;
        let mut i: usize = 0;
        while i < row.len()
            invariant
                g == rows_view(grid@),
                grid_ok(g, n_rows, n_cols),
                row@ == g[r as int],
                r < n_rows,
                i <= row@.len(),
                before == flatten_rows(g, r as nat),
                entries@ == before + Seq::new(i as nat, |j: int| (r, row@[j].0, row@[j].1)),
                row_major(entries@),
                forall|k: int| 0 <= k < before.len() ==> (#[trigger] entries@[k]).0 < r,
                forall|k: int| before.len() <= k < entries@.len() ==> (#[trigger] entries@[k]).0 == r && (i < row@.len() ==> entries@[k].1 < row@[i as int].0),
                forall|k: int| 0 <= k < entries@.len() ==> (#[trigger] entries@[k]).0 <= r && entries@[k].1 < n_cols,
                forall|k: int| 0 <= k < entries@.len() ==> g[(#[trigger] entries@[k]).0 as int].contains((entries@[k].1, entries@[k].2)),
                forall|rr: int, x: (usize, u32)| 0 <= rr < r && #[trigger] g[rr].contains(x) ==> entries@.contains((rr as usize, x.0, x.1)),
                forall|j: int| 0 <= j < i ==> entries@.contains((r, #[trigger] row@[j].0, row@[j].1)),
            decreases row@.len() - i,
        {
            let cell = row[i];
            let ghost prev = entries@;
            entries.push((r, cell.0, cell.1));
            proof {
                assert(g[r as int][i as int] == cell);
                assert(entries@ =~= before + Seq::new((i + 1) as nat, |j: int| (r, row@[j].0, row@[j].1)));
                assert forall|a: int, b: int| 0 <= a < b < entries@.len() implies cell_before(#[trigger] entries@[a], #[trigger] entries@[b]) by {
                    if b == prev.len() {
                        assert(entries@[a] == prev[a]);
                    } else {
                        assert(entries@[a] == prev[a] && entries@[b] == prev[b]);
                    }
                }
                assert forall|k: int| before.len() <= k < entries@.len() implies (#[trigger] entries@[k]).0 == r && (i + 1 < row@.len() ==> entries@[k].1 < row@[i + 1].0) by {
                    if k < prev.len() {
                        assert(entries@[k] == prev[k]);
                    }
                    if i + 1 < row@.len() {
                        assert(row@[i as int].0 < row@[i + 1].0);
                    }
                }
                assert forall|k: int| 0 <= k < entries@.len() implies g[(#[trigger] entries@[k]).0 as int].contains((entries@[k].1, entries@[k].2)) by {
                    if k < prev.len() {
                        assert(entries@[k] == prev[k]);
                    } else {
                        assert(g[r as int][i as int] == (entries@[k].1, entries@[k].2));
                    }
                }
                assert forall|rr: int, x: (usize, u32)| 0 <= rr < r && #[trigger] g[rr].contains(x) implies entries@.contains((rr as usize, x.0, x.1)) by {
                    assert(prev.contains((rr as usize, x.0, x.1)));
                    let k = choose|k: int| 0 <= k < prev.len() && prev[k] == (rr as usize, x.0, x.1);
                    assert(entries@[k] == prev[k]);
                }
                assert forall|j: int| 0 <= j < i + 1 implies entries@.contains((r, #[trigger] row@[j].0, row@[j].1)) by {
                    if j == i {
                        assert(entries@[prev.len() as int] == (r, row@[j].0, row@[j].1));
                    } else {
                        assert(prev.contains((r, row@[j].0, row@[j].1)));
                        let k = choose|k: int| 0 <= k < prev.len() && prev[k] == (r, row@[j].0, row@[j].1);
                        assert(entries@[k] == prev[k]);
                    }
                }
            }
            i = i + 1;
        }
        proof {
            assert(entries@ =~= flatten_rows(g, (r + 1) as nat));
            assert forall|rr: int, x: (usize, u32)| 0 <= rr < r + 1 && #[trigger] g[rr].contains(x) implies entries@.contains((rr as usize, x.0, x.1)) by {
                if rr == r {
                    let j = choose|j: int| 0 <= j < row@.len() && row@[j] == x;
                    assert(entries@.contains((r, row@[j].0, row@[j].1)));
                }
            }
        }
        r = r + 1;
    }
    entries
}

/// The number of cells a generator emits: the requested number, at least the
/// size `m` of the embedded matching, at most the number of cells.
pub open spec fn edge_total(target: usize, m: usize, n_rows: usize, n_cols: usize) -> int {
    let wanted: int = if target > m { target as int } else { m as int };
    if wanted > n_rows * n_cols { n_rows * n_cols } else { wanted }
}

/// `m` is a matching of its first `m.len()` rows into distinct columns below
/// `n_cols`, and every one of its entries occurs in `entries`.
pub open spec fn holds_matching(entries: Seq<(usize, usize, u32)>, m: Seq<(usize, usize, u32)>, n_cols: usize) -> bool {
    &&& forall|k: int| 0 <= k < m.len() ==> (#[trigger] m[k]).0 == k && m[k].1 < n_cols && entries.contains(m[k])
    &&& forall|a: int, b: int| 0 <= a < b < m.len() ==> (#[trigger] m[a]).1 != (#[trigger] m[b]).1
}

/// The entries of a matrix built from `matching` and the stream at state `s`:
/// the matching's cells plus `edge_total(..) - m` extra cells placed by
/// `extra_fill`, listed in row-major order.
pub open spec fn completed_entries(s: u64, n_rows: usize, n_cols: usize, matching: Seq<(usize, usize, u32)>, target: usize, rule: CostRule) -> Seq<(usize, usize, u32)> {
    let m = matching.len() as usize;
    let filled = extra_fill(grid_of_matching(n_rows, matching), s, (edge_total(target, m, n_rows, n_cols) - m) as nat, n_rows, n_cols, rule);
    flatten_rows(filled.0, n_rows as nat)
}

/// Adds random extra cells to a matching until the matrix holds
/// `edge_total(target, m, n_rows, n_cols)` distinct cells, and lists them in
/// row-major order.
pub fn complete_matrix(rng: &mut XorShift64, n_rows: usize, n_cols: usize, matching: &Vec<(usize, usize, u32)>, target: usize, rule: CostRule) -> (entries: Vec<(usize, usize, u32)>)
    requires
        matching@.len() <= n_rows,
        matching@.len() <= n_cols,
        forall|k: int| 0 <= k < matching@.len() ==> (#[trigger] matching@[k]).0 == k && matching@[k].1 < n_cols,
        forall|k: int| 0 <= k < matching@.len() ==> cell_law(rule, k, (#[trigger] matching@[k]).1 as int, matching@[k].2),
        rule_ok(rule),
        rule is OffDiagonal ==> n_rows == n_cols && matching@.len() == n_rows && forall|k: int| 0 <= k < n_rows ==> (#[trigger] matching@[k]).1 == k,
    ensures
        entries@ == completed_entries(old(rng).state(), n_rows, n_cols, matching@, target, rule),
        final(rng).state() == extra_fill(
            grid_of_matching(n_rows, matching@),
            old(rng).state(),
            (edge_total(target, matching@.len() as usize, n_rows, n_cols) - matching@.len()) as nat,
            n_rows,
            n_cols,
            rule,
        ).1,
        entries@.len() == edge_total(target, matching@.len() as usize, n_rows, n_cols),
        row_major(entries@),
        entries_in_shape(entries@, n_rows as nat, n_cols as nat),
        forall|k: int| 0 <= k < matching@.len() ==> entries@.contains(#[trigger] matching@[k]),
        forall|k: int| 0 <= k < entries@.len() ==> cell_law(rule, (#[trigger] entries@[k]).0 as int, entries@[k].1 as int, entries@[k].2),
{
    let m: usize = matching.len();
    let wanted: usize = if target > m { target } else { m };
    let total: usize = match n_rows.checked_mul(n_cols) {
        Some(cells) => if wanted > cells { cells } else { wanted },
        None => wanted,
    };
    assert(m <= n_rows * n_cols) by (nonlinear_arith)
        requires
            m <= n_rows,
            m <= n_cols,
    ;
    let mut grid = matching_grid(n_rows, n_cols, matching);
    let ghost g0 = rows_view(grid@);
    proof {
        assert forall|r: int, i: int| 0 <= r < g0.len() && 0 <= i < g0[r].len() implies cell_law(rule, r, (#[trigger] g0[r][i]).0 as int, g0[r][i].1) by {
            assert(g0[r][i] == (matching@[r].1, matching@[r].2));
        }
        if rule is OffDiagonal {
            assert forall|r: int| 0 <= r < n_rows implies row_has_col(#[trigger] g0[r], r) by {
                assert(g0[r][0].0 == r);
            }
        }
    }
    fill_extras(&mut grid, rng, n_rows, n_cols, total - m, rule);
    let ghost g = rows_view(grid@);
    let entries = flatten_grid(&grid, n_rows, n_cols);
    proof {
        assert forall|k: int| 0 <= k < matching@.len() implies entries@.contains(#[trigger] matching@[k]) by {
            let x = (matching@[k].1, matching@[k].2);
            assert(g0[k][0] == x);
            assert(g0[k].contains(x));
            assert(g[k].contains(x));
        }
        assert forall|k: int| 0 <= k < entries@.len() implies cell_law(rule, (#[trigger] entries@[k]).0 as int, entries@[k].1 as int, entries@[k].2) by {
            let e = entries@[k];
            let r = e.0 as int;
            assert(g[r].contains((e.1, e.2)));
            let i = choose|i: int| 0 <= i < g[r].len() && g[r][i] == (e.1, e.2);
            assert(cell_law(rule, r, g[r][i].0 as int, g[r][i].1));
        }
    }
    entries
}

/// The position of cell `(r, c)` in row-major order.
spec fn linear_index(r: int, c: int, n_cols: usize) -> int {
    r * n_cols + c
}

proof fn lemma_linear_before(a: (usize, usize, u32), b: (usize, usize, u32), n_cols: usize)
    requires
        cell_before(a, b),
        a.1 < n_cols,
        b.1 < n_cols,
    ensures
        linear_index(a.0 as int, a.1 as int, n_cols) < linear_index(b.0 as int, b.1 as int, n_cols),
{
    if a.0 < b.0 {
        assert(a.0 * n_cols + n_cols <= b.0 * n_cols) by (nonlinear_arith)
            requires
                a.0 < b.0,
        ;
    }
}

proof fn lemma_linear_bounds(e: Seq<(usize, usize, u32)>, n_rows: usize, n_cols: usize, k: int)
    requires
        row_major(e),
        entries_in_shape(e, n_rows as nat, n_cols as nat),
        e.len() == n_rows * n_cols,
        0 <= k < e.len(),
    ensures
        linear_index(e[k].0 as int, e[k].1 as int, n_cols) == k,
    decreases e.len() - k,
{
    assert forall|j: int| 0 <= j < k implies linear_index(e[j].0 as int, e[j].1 as int, n_cols) >= j by {
        lemma_linear_lower(e, n_rows, n_cols, j);
    }
    lemma_linear_lower(e, n_rows, n_cols, k);
    if k + 1 < e.len() {
        lemma_linear_bounds(e, n_rows, n_cols, k + 1);
        lemma_linear_before(e[k], e[k + 1], n_cols);
    } else {
        let r = e[k].0 as int;
        let c = e[k].1 as int;
        assert(r * n_cols + c <= n_rows * n_cols - 1) by (nonlinear_arith)
            requires
                0 <= r < n_rows,
                0 <= c < n_cols,
        ;
    }
}

proof fn lemma_linear_lower(e: Seq<(usize, usize, u32)>, n_rows: usize, n_cols: usize, k: int)
    requires
        row_major(e),
        entries_in_shape(e, n_rows as nat, n_cols as nat),
        0 <= k < e.len(),
    ensures
        linear_index(e[k].0 as int, e[k].1 as int, n_cols) >= k,
    decreases k,
{
    if k > 0 {
        lemma_linear_lower(e, n_rows, n_cols, k - 1);
        lemma_linear_before(e[k - 1], e[k], n_cols);
    } else {
        let r = e[k].0 as int;
        assert(r * n_cols >= 0) by (nonlinear_arith)
            requires
                r >= 0,
        ;
    }
}

/// Some entry lies in cell `(r, c)`.
pub open spec fn holds_cell(e: Seq<(usize, usize, u32)>, r: int, c: int) -> bool {
    exists|k: int| 0 <= k < e.len() && (#[trigger] e[k]).0 == r && e[k].1 == c
}

/// Law: distinct cells in row-major order, inside an `n_rows x n_cols` shape,
/// as many as the shape has, cover every cell of the shape.
pub proof fn lemma_full_entries_cover_every_cell(e: Seq<(usize, usize, u32)>, n_rows: usize, n_cols: usize)
    requires
        row_major(e),
        entries_in_shape(e, n_rows as nat, n_cols as nat),
        e.len() == n_rows * n_cols,
    ensures
        forall|r: int, c: int| 0 <= r < n_rows && 0 <= c < n_cols ==> #[trigger] holds_cell(e, r, c),
{
    assert forall|r: int, c: int| 0 <= r < n_rows && 0 <= c < n_cols implies #[trigger] holds_cell(e, r, c) by {
        let k = r * n_cols + c;
        assert(0 <= k < n_rows * n_cols) by (nonlinear_arith)
            requires
                0 <= r < n_rows,
                0 <= c < n_cols,
                k == r * n_cols + c,
        ;
        lemma_linear_bounds(e, n_rows, n_cols, k);
        let r2 = e[k].0 as int;
        let c2 = e[k].1 as int;
        assert(r2 == r && c2 == c) by (nonlinear_arith)
            requires
                0 <= r < n_rows,
                0 <= c < n_cols,
                0 <= r2 < n_rows,
                0 <= c2 < n_cols,
                r2 * n_cols + c2 == r * n_cols + c,
        ;
    }
}

proof fn lemma_scan_free_position(row: Seq<(usize, u32)>, c: int, idx: int)
    requires
        0 <= idx <= row.len(),
    ensures
        idx <= scan_free(row, c, idx).1 <= row.len(),
    decreases row.len() - idx,
{
    if idx < row.len() && row[idx].0 <= c {
        if row[idx].0 == c {
            lemma_scan_free_position(row, c + 1, idx + 1);
        } else {
            lemma_scan_free_position(row, c, idx + 1);
        }
    }
}

proof fn lemma_find_cell_position(g: Seq<Seq<(usize, u32)>>, n_rows: usize, n_cols: usize, r: int, c: int, visits: nat)
    requires
        g.len() == n_rows,
        0 <= r < n_rows,
    ensures
        0 <= find_cell(g, n_rows, n_cols, r, c, visits).0 < n_rows,
        0 <= find_cell(g, n_rows, n_cols, r, c, visits).2 <= g[find_cell(g, n_rows, n_cols, r, c, visits).0].len(),
    decreases visits,
{
    lemma_scan_free_position(g[r], c, 0);
    let found = scan_free(g[r], c, 0);
    if !(found.0 < n_cols || visits == 0) {
        lemma_find_cell_position(g, n_rows, n_cols, next_row(r, n_rows), 0, (visits - 1) as nat);
    }
}

/// Law: adding extra cells never removes a cell: every cell of every row of
/// `g` is still in that row afterwards.
pub proof fn lemma_extra_fill_keeps_cells(g: Seq<Seq<(usize, u32)>>, s: u64, k: nat, n_rows: usize, n_cols: usize, rule: CostRule)
    requires
        g.len() == n_rows,
        k > 0 ==> n_rows > 0 && n_cols > 0,
    ensures
        extra_fill(g, s, k, n_rows, n_cols, rule).0.len() == n_rows,
        forall|r: int, x: (usize, u32)|
            0 <= r < n_rows && #[trigger] g[r].contains(x) ==> extra_fill(g, s, k, n_rows, n_cols, rule).0[r].contains(x),
    decreases k,
{
    if k > 0 {
        let s1 = xorshift_step(s);
        let s2 = xorshift_step(s1);
        lemma_index_from_is_remainder(s1, n_rows);
        lemma_index_from_is_remainder(s2, n_cols);
        let r0 = index_from(s1, n_rows) as int;
        let c0 = index_from(s2, n_cols) as int;
        let cell = find_cell(g, n_rows, n_cols, r0, c0, n_rows as nat);
        lemma_find_cell_position(g, n_rows, n_cols, r0, c0, n_rows as nat);
        let s3 = xorshift_step(s2);
        let w = rule_cost(rule, cell.0, cell.1, s3);
        let g2 = insert_cell(g, cell.0, cell.2, cell.1, w);
        assert forall|r: int, x: (usize, u32)| 0 <= r < n_rows && #[trigger] g[r].contains(x) implies g2[r].contains(x) by {
            if r == cell.0 {
                let i = choose|i: int| 0 <= i < g[r].len() && g[r][i] == x;
                if i < cell.2 {
                    assert(g2[r][i] == x);
                } else {
                    assert(g2[r][i + 1] == x);
                }
            } else {
                assert(g2[r] == g[r]);
            }
        }
        lemma_extra_fill_keeps_cells(g2, s3, (k - 1) as nat, n_rows, n_cols, rule);
    }
}

/// Law: listing the first `k` rows lists every cell of them, tagged with its
/// row.
pub proof fn lemma_flatten_lists_every_cell(g: Seq<Seq<(usize, u32)>>, k: nat)
    requires
        k <= g.len(),
    ensures
        forall|r: int, x: (usize, u32)| 0 <= r < k && #[trigger] g[r].contains(x) ==> flatten_rows(g, k).contains((r as usize, x.0, x.1)),
    decreases k,
{
    if k > 0 {
        let r1 = k - 1;
        lemma_flatten_lists_every_cell(g, (k - 1) as nat);
        let before = flatten_rows(g, (k - 1) as nat);
        let tail = Seq::new(g[r1].len(), |i: int| (r1 as usize, g[r1][i].0, g[r1][i].1));
        assert(flatten_rows(g, k) == before + tail);
        assert forall|r: int, x: (usize, u32)| 0 <= r < k && #[trigger] g[r].contains(x) implies flatten_rows(g, k).contains((r as usize, x.0, x.1)) by {
            if r < k - 1 {
                let i = choose|i: int| 0 <= i < before.len() && before[i] == (r as usize, x.0, x.1);
                assert((before + tail)[i] == before[i]);
            } else {
                let i = choose|i: int| 0 <= i < g[r].len() && g[r][i] == x;
                assert((before + tail)[before.len() + i] == tail[i]);
            }
        }
    }
}

/// Law: a completed matrix holds every entry of the matching it was built
/// from.
pub proof fn lemma_completed_entries_hold_matching(s: u64, n_rows: usize, n_cols: usize, matching: Seq<(usize, usize, u32)>, target: usize, rule: CostRule)
    requires
        matching.len() <= n_rows,
        matching.len() <= n_cols,
        forall|k: int| 0 <= k < matching.len() ==> (#[trigger] matching[k]).0 == k,
    ensures
        forall|k: int| 0 <= k < matching.len() ==> completed_entries(s, n_rows, n_cols, matching, target, rule).contains(#[trigger] matching[k]),
{
    let m = matching.len() as usize;
    let g0 = grid_of_matching(n_rows, matching);
    assert(m <= n_rows * n_cols) by (nonlinear_arith)
        requires
            m <= n_rows,
            m <= n_cols,
    ;
    let k = (edge_total(target, m, n_rows, n_cols) - m) as nat;
    assert(k > 0 ==> n_rows > 0 && n_cols > 0) by (nonlinear_arith)
        requires
            k == edge_total(target, m, n_rows, n_cols) - m,
            edge_total(target, m, n_rows, n_cols) <= n_rows * n_cols,
    ;
    lemma_extra_fill_keeps_cells(g0, s, k, n_rows, n_cols, rule);
    let g = extra_fill(g0, s, k, n_rows, n_cols, rule).0;
    lemma_flatten_lists_every_cell(g, n_rows as nat);
    assert forall|i: int| 0 <= i < matching.len() implies completed_entries(s, n_rows, n_cols, matching, target, rule).contains(#[trigger] matching[i]) by {
        let x = (matching[i].1, matching[i].2);
        assert(g0[i][0] == x);
        assert(g0[i].contains(x));
        assert(g[i].contains(x));
    }
}

} // verus!
