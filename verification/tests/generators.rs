use weighted_matching_benchmark::blocks::block_structured_matrix;
use weighted_matching_benchmark::matrix::{
    cell_count, dense_square_matrix, diagonal_dominant_matrix, near_degenerate_matrix,
    rectangular_sparse_matrix, sparse_square_matrix, CostMatrix,
};
use weighted_matching_benchmark::permutation::random_permutation;
use weighted_matching_benchmark::rng::{random_cost_cents, random_index, XorShift64};

fn is_permutation_of(p: &[usize], n: usize) -> bool {
    let mut seen = vec![false; n];
    if p.len() != n {
        return false;
    }
    for &x in p {
        if x >= n || seen[x] {
            return false;
        }
        seen[x] = true;
    }
    true
}

/// Every entry lies inside the shape, and the cells strictly increase in
/// row-major order (so no cell occurs twice).
fn assert_sorted_distinct(m: &CostMatrix) {
    for e in &m.entries {
        assert!(e.0 < m.n_rows && e.1 < m.n_cols);
    }
    for w in m.entries.windows(2) {
        assert!((w[0].0, w[0].1) < (w[1].0, w[1].1));
    }
}

/// Rows `0..size` each hold a cell whose columns, one per row, are distinct.
fn assert_matching(m: &CostMatrix, size: usize, cols: &[usize]) {
    assert_eq!(cols.len(), size);
    let mut sorted = cols.to_vec();
    sorted.sort();
    sorted.dedup();
    assert_eq!(sorted.len(), size);
    for (k, &c) in cols.iter().enumerate() {
        assert!(m.entries.iter().any(|e| e.0 == k && e.1 == c));
    }
}

#[test]
fn xorshift_steps_match_known_values() {
    let mut rng = XorShift64::new(1);
    assert_eq!(rng.next_value(), 1082269761);
    assert_eq!(rng.next_value(), 1152992998833853505);
    assert_eq!(rng.next_value(), 11177516664432764457);
}

#[test]
fn zero_seed_stays_zero() {
    let mut rng = XorShift64::new(0);
    for _ in 0..10 {
        assert_eq!(rng.next_value(), 0);
    }
}

#[test]
fn random_index_reduces_modulo_n() {
    let mut rng = XorShift64::new(42);
    assert_eq!(random_index(&mut rng, 10), 4);
    assert_eq!(random_index(&mut rng, 7), 3);
    let mut rng = XorShift64::new(5);
    for n in 1..50 {
        assert!(random_index(&mut rng, n) < n);
    }
}

#[test]
fn random_cost_cents_exact_and_in_range() {
    let mut rng = XorShift64::new(42);
    assert_eq!(random_cost_cents(&mut rng), 980);
    for _ in 0..1000 {
        let c = random_cost_cents(&mut rng);
        assert!((1..=999).contains(&c));
    }
}

#[test]
fn random_permutation_exact_values() {
    let mut rng = XorShift64::new(42);
    assert_eq!(random_permutation(&mut rng, 5), vec![1, 2, 0, 3, 4]);
    let mut rng = XorShift64::new(7);
    assert_eq!(random_permutation(&mut rng, 8), vec![6, 5, 1, 4, 2, 3, 0, 7]);
}

#[test]
fn random_permutation_edge_sizes() {
    let mut rng = XorShift64::new(3);
    assert!(random_permutation(&mut rng, 0).is_empty());
    assert_eq!(random_permutation(&mut rng, 1), vec![0]);
    for n in 0..40 {
        let p = random_permutation(&mut rng, n);
        assert!(is_permutation_of(&p, n));
    }
}

#[test]
fn random_permutation_consumes_n_minus_one_draws() {
    let mut a = XorShift64::new(11);
    let _ = random_permutation(&mut a, 6);
    let mut b = XorShift64::new(11);
    for _ in 0..5 {
        b.next_value();
    }
    assert_eq!(a.next_value(), b.next_value());
}

#[test]
fn sparse_square_matrix_exact_entries() {
    let m = sparse_square_matrix(42, 5, 8);
    assert_eq!((m.n_rows, m.n_cols), (5, 5));
    assert_eq!(
        m.entries,
        vec![
            (0, 1, 442),
            (1, 2, 103),
            (1, 3, 103),
            (2, 0, 812),
            (2, 2, 70),
            (3, 3, 211),
            (3, 4, 785),
            (4, 4, 643)
        ]
    );
}

#[test]
fn sparse_square_matrix_at_least_n_entries() {
    let m = sparse_square_matrix(42, 20, 3);
    assert_eq!(m.entries.len(), 20);
    let mut rng = XorShift64::new(42);
    assert_matching(&m, 20, &random_permutation(&mut rng, 20));
    assert_sorted_distinct(&m);
    let m = sparse_square_matrix(42, 0, 0);
    assert!(m.entries.is_empty());
}

#[test]
fn sparse_square_matrix_is_reproducible() {
    let a = sparse_square_matrix(42, 30, 90);
    let b = sparse_square_matrix(42, 30, 90);
    assert_eq!(a.entries, b.entries);
    let c = sparse_square_matrix(43, 30, 90);
    assert_ne!(a.entries, c.entries);
}

#[test]
fn sparse_square_matrix_in_shape_and_cost_range() {
    let m = sparse_square_matrix(42, 50, 250);
    assert_eq!(m.entries.len(), 250);
    let mut rng = XorShift64::new(42);
    assert_matching(&m, 50, &random_permutation(&mut rng, 50));
    assert_sorted_distinct(&m);
    for e in &m.entries {
        assert!((1..=999).contains(&e.2));
    }
}

#[test]
fn sparse_square_matrix_full_density_holds_every_cell() {
    let m = sparse_square_matrix(0, 2, 4);
    assert_eq!(m.entries, vec![(0, 0, 1), (0, 1, 1), (1, 0, 1), (1, 1, 1)]);
    for seed in [1u64, 42, 7] {
        let m = sparse_square_matrix(seed, 12, 144);
        assert_eq!(m.entries.len(), 144);
        assert_sorted_distinct(&m);
    }
}

#[test]
fn sparse_square_matrix_caps_at_cell_count() {
    let m = sparse_square_matrix(3, 3, 100);
    assert_eq!(m.entries.len(), 9);
    assert_sorted_distinct(&m);
    let m = sparse_square_matrix(3, 0, 10);
    assert!(m.entries.is_empty());
}

#[test]
fn sparse_square_matrix_zero_seed() {
    let m = sparse_square_matrix(0, 3, 4);
    assert_eq!(m.entries, vec![(0, 0, 1), (0, 1, 1), (1, 2, 1), (2, 0, 1)]);
}

#[test]
fn rectangular_sparse_matrix_exact_entries() {
    let m = rectangular_sparse_matrix(42, 3, 5, 6);
    assert_eq!((m.n_rows, m.n_cols), (3, 5));
    assert_eq!(
        m.entries,
        vec![(0, 1, 442), (0, 2, 749), (0, 3, 674), (1, 2, 103), (2, 0, 812), (2, 1, 279)]
    );
    let m = rectangular_sparse_matrix(42, 4, 2, 5);
    assert_eq!(
        m.entries,
        vec![(0, 0, 103), (0, 1, 542), (1, 0, 193), (1, 1, 70), (3, 0, 643)]
    );
}

#[test]
fn rectangular_sparse_matrix_embeds_matching() {
    for &(nr, nc) in &[(20, 30), (50, 100), (30, 20)] {
        let m = rectangular_sparse_matrix(42, nr, nc, 120);
        let min_dim = nr.min(nc);
        assert_eq!(m.entries.len(), 120);
        let mut rng = XorShift64::new(42);
        let cols = random_permutation(&mut rng, nc);
        assert_matching(&m, min_dim, &cols[..min_dim]);
        assert_sorted_distinct(&m);
    }
    let m = rectangular_sparse_matrix(42, 0, 7, 5);
    assert!(m.entries.is_empty());
    let m = rectangular_sparse_matrix(5, 3, 4, 12);
    assert_eq!(m.entries.len(), 12);
    assert_sorted_distinct(&m);
}

#[test]
fn diagonal_dominant_matrix_exact_entries() {
    let m = diagonal_dominant_matrix(42, 4, 6);
    assert_eq!(
        m.entries,
        vec![(0, 0, 15), (1, 1, 12), (2, 0, 557), (2, 2, 15), (2, 3, 875), (3, 3, 17)]
    );
}

#[test]
fn diagonal_dominant_matrix_cost_bands() {
    let m = diagonal_dominant_matrix(9, 30, 200);
    assert_eq!(m.entries.len(), 200);
    assert_sorted_distinct(&m);
    assert_eq!(m.entries.iter().filter(|e| e.0 == e.1).count(), 30);
    for e in &m.entries {
        if e.0 == e.1 {
            assert!((1..=20).contains(&e.2));
        } else {
            assert!((400..=999).contains(&e.2));
        }
    }
}

#[test]
fn block_structured_matrix_exact_entries() {
    let m = block_structured_matrix(42, 10, 3, 13);
    assert_eq!(
        m.entries,
        vec![
            (0, 0, 55),
            (1, 2, 37),
            (2, 1, 63),
            (2, 5, 729),
            (3, 5, 15),
            (4, 4, 37),
            (5, 3, 58),
            (6, 8, 14),
            (7, 1, 852),
            (7, 7, 66),
            (8, 6, 12),
            (9, 4, 956),
            (9, 9, 73)
        ]
    );
}

#[test]
fn block_structured_matrix_more_blocks_than_rows() {
    let m = block_structured_matrix(9, 2, 3, 0);
    assert_eq!(m.entries, vec![(0, 0, 62), (1, 1, 74)]);
    let m = block_structured_matrix(9, 2, 3, 4);
    assert_eq!(m.entries, vec![(0, 0, 62), (0, 1, 43), (1, 0, 59), (1, 1, 74)]);
}

#[test]
fn block_structured_matrix_keeps_matching_inside_blocks() {
    let (n, nb) = (23, 4);
    let bs = n / nb;
    let block_of = |x: usize| (x / bs).min(nb - 1);
    let m = block_structured_matrix(5, n, nb, 100);
    assert_eq!(m.entries.len(), 100);
    assert_sorted_distinct(&m);
    for e in &m.entries {
        if block_of(e.0) == block_of(e.1) {
            assert!((1..=100).contains(&e.2));
        } else {
            assert!((600..=999).contains(&e.2));
        }
    }
    for r in 0..n {
        assert!(m.entries.iter().any(|e| e.0 == r && block_of(e.1) == block_of(r) && e.2 <= 100));
    }
}

#[test]
fn block_structured_matrix_prices_remainder_as_last_block() {
    let m = block_structured_matrix(1, 5, 2, 25);
    assert_eq!(m.entries.len(), 25);
    let cell = m.entries.iter().find(|e| e.0 == 4 && e.1 == 2).unwrap();
    assert_eq!(cell.2, 85);
    let cell = m.entries.iter().find(|e| e.0 == 2 && e.1 == 4).unwrap();
    assert_eq!(cell.2, 28);
    let cell = m.entries.iter().find(|e| e.0 == 0 && e.1 == 2).unwrap();
    assert_eq!(cell.2, 634);
}

#[test]
fn near_degenerate_matrix_exact_entries() {
    let m = near_degenerate_matrix(42, 4, 6);
    assert_eq!(
        m.entries,
        vec![(0, 3, 1), (1, 0, 0), (2, 0, 1), (2, 1, 0), (3, 0, 1), (3, 2, 1)]
    );
    let m = near_degenerate_matrix(1, 40, 300);
    let mut rng = XorShift64::new(1);
    assert_matching(&m, 40, &random_permutation(&mut rng, 40));
    assert_sorted_distinct(&m);
    assert!(m.entries.iter().all(|e| e.2 <= 2));
}

#[test]
fn dense_square_matrix_exact_cells() {
    assert_eq!(dense_square_matrix(42, 3), vec![980, 542, 193, 995, 442, 103, 812, 211, 643]);
    assert!(dense_square_matrix(42, 0).is_empty());
    let cells = dense_square_matrix(8, 20);
    assert_eq!(cells.len(), 400);
    assert!(cells.iter().all(|c| (1..=999).contains(c)));
}

#[test]
fn cell_count_detects_overflow() {
    assert_eq!(cell_count(20, 30), Some(600));
    assert_eq!(cell_count(0, usize::MAX), Some(0));
    assert_eq!(cell_count(usize::MAX, 2), None);
    assert_eq!(cell_count(1 << 33, 1 << 33), None);
}
