use avail_lc_sim::base_grid::{Grid, SampleStrategy};
use avail_lc_sim::grid2d::{reconstruct, Grid2dErasure};
use avail_lc_sim::traits::Reconstructable;
use rand::rngs::SmallRng;
use rand::SeedableRng;

fn from_bool_grid(bools: [[bool; 4]; 4]) -> Grid2dErasure {
    let grid = Grid::from_bool_grid(bools);
    Grid2dErasure::from_grid(grid, 2).unwrap()
}

// Example of reconstruction with less than (W/2 + 1) * (H/2 + 1) points
#[test]
fn test_reconstruct() {
    let mut g1 = from_bool_grid([
        [true, true, false, false],
        [false, false, true, false],
        [false, false, false, false],
        [false, false, false, true],
    ]);
    reconstruct(&mut g1.grid);
    let g2 = from_bool_grid([
        [true, true, true, true],
        [false, false, true, false],
        [false, false, false, false],
        [false, false, false, true],
    ]);
    assert!(g1 == g2);
    reconstruct(&mut g1.grid);
    let g3 = from_bool_grid([
        [true, true, true, true],
        [false, false, true, true],
        [false, false, true, true],
        [false, false, true, true],
    ]);
    assert!(g1 == g3);
}

#[test]
fn grid2d_test_merge() {
    let g1 = from_bool_grid([
        [true, false, false, false],
        [false, false, true, true],
        [false, true, false, false],
        [true, true, true, true],
    ]);
    let g2 = from_bool_grid([
        [true, true, true, false],
        [false, true, false, true],
        [false, false, true, false],
        [true, true, false, false],
    ]);
    let res_cmp = from_bool_grid([
        [true, true, true, false],
        [false, true, true, true],
        [false, true, true, false],
        [true, true, true, true],
    ]);
    let res = g1.merge(g2);
    assert!(res == res_cmp);
}

#[test]
fn reconstruct_reports_whether_anything_changed() {
    let mut empty = from_bool_grid([[false; 4]; 4]);
    assert!(!reconstruct(&mut empty.grid));

    let mut g = from_bool_grid([
        [true, true, false, false],
        [false, false, true, false],
        [false, false, false, false],
        [false, false, false, true],
    ]);
    // three passes each add cells; the fourth reaches the fixed point
    assert!(reconstruct(&mut g.grid));
    assert!(reconstruct(&mut g.grid));
    assert!(reconstruct(&mut g.grid));
    assert!(!reconstruct(&mut g.grid));
}

#[test]
fn can_reconstruct_runs_the_fixed_point() {
    // the target (1, 1) is unset and its row and column are sparse, but
    // the cascade saturates the grid
    let g = from_bool_grid([
        [true, true, false, false],
        [false, false, true, false],
        [false, false, false, false],
        [false, false, false, true],
    ]);
    assert!(g.can_reconstruct((1, 1)));
    let sparse = from_bool_grid([
        [true, false, false, false],
        [false, false, false, false],
        [false, false, false, false],
        [false, false, false, true],
    ]);
    assert!(!sparse.can_reconstruct((1, 1)));
    assert!(sparse.can_reconstruct((0, 0)));
}

#[test]
fn fully_censored_client_cannot_reconstruct_2d() {
    let mut rng = SmallRng::from_entropy();
    let (mask, target) = Grid2dErasure::new_mask(&mut rng, 4);
    let mut g = Grid2dErasure::new(4);
    g.sample_exclusion(&mut rng, 10_000, &SampleStrategy::RandomPoints, &mask);
    assert!(!g.can_reconstruct(target));
}
