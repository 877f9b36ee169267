# weighted_matching_benchmark

Seeded generators of cost matrices for weighted bipartite matching benchmarks,
verified with Verus.

- `src/rng.rs`: the 64-bit xorshift stream, `random_index` and
  `random_cost_cents`, with the stream specified step by step.
- `src/permutation.rs`: the Fisher-Yates `random_permutation`, proved to be the
  specified shuffle and a permutation of `[0, n)`.
- `src/grid.rs`: the sparse grid shared by the generators: extra cells are
  placed at the first free cell at or after a random position, so every cell
  is distinct, and the grid is listed in row-major order. Also the law that a
  full listing covers every cell.
- `src/matrix.rs`: square, rectangular, diagonal-dominant, near-degenerate and
  dense generators. Each returns exactly the entries its specification names,
  and is proved to hold `min(max(target, matching size), cells)` distinct cells
  in row-major order, to embed its matching, to stay inside its shape and to
  keep its costs in the documented ranges.
- `src/blocks.rs`: the block-structured generator, whose matching is also proved
  to stay inside the blocks, and whose costs follow the documented blocks (the
  last block taking the remainder).
- `app/lib.rs`: the floating-point side: edge targets from a density, `f64`
  costs, the sparse and dense matrix types of `geometric_traits`, and labels.
