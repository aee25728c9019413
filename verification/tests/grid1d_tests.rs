use avail_lc_sim::base_grid::{Grid, SampleStrategy};
use avail_lc_sim::grid1d::Grid1dErasure;
use avail_lc_sim::traits::Reconstructable;
use rand::rngs::SmallRng;
use rand::SeedableRng;

fn from_bool_grid(bools: [[bool; 2]; 4]) -> Grid1dErasure {
    let grid = Grid::from_bool_grid(bools);
    Grid1dErasure::from_grid(grid, 2).unwrap()
}

#[test]
fn grid1d_test_merge() {
    let g1 = from_bool_grid([[true, true], [false, false], [false, false], [true, false]]);
    assert!(g1.can_reconstruct((0, 0)));
    assert!(!g1.can_reconstruct((1, 1)));
    assert!(g1.can_reconstruct((0, 1)));
    let g2 = from_bool_grid([[true, true], [false, true], [false, false], [true, true]]);
    let res_cmp = from_bool_grid([[true, true], [false, true], [false, false], [true, true]]);
    let res = g1.merge(g2);
    assert!(res == res_cmp);
}

#[test]
fn merge_is_commutative_and_idempotent() {
    let a = [[true, false], [false, true], [true, true], [false, false]];
    let b = [[false, true], [false, false], [true, false], [true, true]];
    let ab = from_bool_grid(a).merge(from_bool_grid(b));
    let ba = from_bool_grid(b).merge(from_bool_grid(a));
    assert!(ab == ba);
    let aa = from_bool_grid(a).merge(from_bool_grid(a));
    assert!(aa == from_bool_grid(a));
}

#[test]
fn column_threshold_reconstructs_missing_cell() {
    // column 0 holds 2 of its 4 cells, meeting the threshold n = 2
    let g = from_bool_grid([[false, false], [true, false], [true, false], [false, false]]);
    assert!(g.can_reconstruct((0, 0)));
    assert!(!g.can_reconstruct((0, 1)));
}

#[test]
fn fully_censored_client_cannot_reconstruct_1d() {
    let mut rng = SmallRng::from_entropy();
    let (mask, target) = Grid1dErasure::new_mask(&mut rng, 4);
    let mut g = Grid1dErasure::new(4);
    g.sample_exclusion(&mut rng, 10_000, &SampleStrategy::RandomPoints, &mask);
    assert!(!g.can_reconstruct(target));
}
