use avail_lc_sim::base_grid::{Grid, SampleStrategy};
use avail_lc_sim::grid1d::Grid1dErasure;
use avail_lc_sim::grid2d::Grid2dErasure;
use avail_lc_sim::traits::Reconstructable;
use rand::rngs::SmallRng;
use rand::SeedableRng;

#[test]
fn test_box_sampling() {
    let mut g = Grid::new(32, 64);
    g.sample(
        &mut SmallRng::from_entropy(),
        1,
        &SampleStrategy::Box { width: 16, height: 8 },
    );
    assert_eq!(g.count_ones(), 16 * 8);
}

#[test]
fn empty_grid_counts_zero() {
    let g = Grid::new(7, 5);
    assert_eq!(g.count_ones(), 0);
}

#[test]
fn single_point_sample_counts_one() {
    for seed in 0..20u64 {
        let mut g = Grid::new(7, 5);
        g.sample(
            &mut SmallRng::seed_from_u64(seed),
            1,
            &SampleStrategy::RandomPoints,
        );
        assert_eq!(g.count_ones(), 1);
    }
}

#[test]
fn set_get_and_column_counts() {
    let mut g = Grid::new(3, 4);
    g.set(0, 0, true);
    g.set(3, 0, true);
    g.set(1, 2, true);
    assert!(g.get(0, 0));
    assert!(!g.get(2, 0));
    assert!(g.get(1, 2));
    assert_eq!(g.count_columnar(0), 2);
    assert_eq!(g.count_columnar(1), 0);
    assert_eq!(g.count_columnar(2), 1);
    assert_eq!(g.count_ones(), 3);
    let (col_c, row_c) = g.col_row_counts();
    assert_eq!(col_c, vec![2, 0, 1]);
    assert_eq!(row_c, vec![1, 1, 0, 1]);
}

#[test]
fn and_inplace_intersects() {
    let mut a = Grid::from_bool_grid([[true, true], [true, false]]);
    let b = Grid::from_bool_grid([[true, false], [false, false]]);
    a.and_inplace(&b);
    assert!(a == Grid::from_bool_grid([[true, false], [false, false]]));
}

#[test]
fn not_complements_every_cell() {
    let a = Grid::from_bool_grid([[true, false], [false, true]]);
    let c = a.not();
    assert!(c == Grid::from_bool_grid([[false, true], [true, false]]));
}

#[test]
fn mask1_blocks_n_plus_one_cells() {
    for n in [1usize, 2, 3, 8] {
        let (mask, (row, col)) = Grid1dErasure::new_mask(&mut SmallRng::from_entropy(), n);
        assert!(row < n && col < n);
        // the allowed mask holds all but the n + 1 blocked cells
        assert_eq!(mask.count_ones(), n * 2 * n - (n + 1));
    }
}

#[test]
fn mask2_blocks_quadratic_many_cells() {
    for n in [1usize, 2, 3, 8] {
        let (mask, (row, col)) = Grid2dErasure::new_mask(&mut SmallRng::from_entropy(), n);
        assert!(row < n && col < n);
        // the allowed mask holds all but the n^2 + 2n + 1 blocked cells
        assert_eq!(mask.count_ones(), 4 * n * n - (n * n + 2 * n + 1));
    }
}

#[test]
fn accessors_report_shape() {
    let g = Grid::new(3, 4);
    assert_eq!(g.w(), 3);
    assert_eq!(g.h(), 4);
    assert_eq!(g.coord_to_ind(2, 1), 2 + 1 * 4);
    assert_eq!(Grid1dErasure::dims(), 1);
    assert_eq!(Grid2dErasure::dims(), 2);
    assert_eq!(Grid1dErasure::new(5).grid_size(), 5);
    assert_eq!(Grid2dErasure::new(5).grid_size(), 5);
}

#[test]
fn from_grid_rejects_wrong_extent() {
    assert!(Grid1dErasure::from_grid(Grid::new(2, 2), 2).is_err());
    assert!(Grid1dErasure::from_grid(Grid::new(2, 4), 2).is_ok());
    assert!(Grid2dErasure::from_grid(Grid::new(4, 4), 2).is_ok());
    assert!(Grid2dErasure::from_grid(Grid::new(2, 4), 2).is_err());
}
