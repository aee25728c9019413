//! One-dimensional erasure layout: logical size `n` gives a `n x 2n` grid
//! whose lower rows `[0, n)` hold primary data and whose upper rows hold
//! the redundant half. A cell reconstructs directly, or through a column
//! holding at least `n` of its `2n` cells.
use crate::base_grid::{
    cell_of, col_count, col_seq, lemma_bits_eq_by_cells, lemma_coord_in_bounds,
    lemma_coord_injective, lemma_count_by_cols, lemma_lin_decompose, lemma_mul_le, lemma_succ_mul,
    sum_col_counts, Grid, SampleStrategy,
};
use crate::bitspec::{
    all_false, and_bits, count_trues, lemma_count_half_plus_one, lemma_count_zero, not_bits,
};
use crate::bitstore::bits_of;
use crate::rng::rand_below;
use crate::traits::Reconstructable;
use vstd::prelude::*;

verus! {

/// A cell the scheme blocks for target `(row, col)`: the whole redundant
/// half of column `col`, and the primary target cell itself.
pub open spec fn blocked1(n: nat, row: int, col: int, i: int, j: int) -> bool {
    j == col && (i == row || n <= i)
}

/// The blocked set written out as a `n x 2n` bit grid.
pub open spec fn blocked1_bits(n: nat, row: int, col: int) -> Seq<bool> {
    Seq::new(
        n * (2 * n),
        |t: int| blocked1(n, row, col, t % ((2 * n) as int), t / ((2 * n) as int)),
    )
}

/// The allowed-cell mask: the complement of the blocked set.
pub open spec fn mask1_bits(n: nat, row: int, col: int) -> Seq<bool> {
    not_bits(blocked1_bits(n, row, col))
}

proof fn lemma_mask1_sum(n: nat, row: int, col: int, j: int)
    requires
        1 <= n,
        0 <= row < n,
        0 <= col < n,
        0 <= j <= n,
    ensures
        sum_col_counts(blocked1_bits(n, row, col), 2 * n, j) == if j > col {
            (n + 1) as int
        } else {
            0int
        },
    decreases j,
{
    let h: nat = 2 * n;
    let v = blocked1_bits(n, row, col);
    if j > 0 {
        lemma_mask1_sum(n, row, col, j - 1);
        lemma_succ_mul(j - 1, h as int);
        lemma_mul_le(0, j - 1, h as int);
        lemma_mul_le(j, n as int, h as int);
        let cs = col_seq(v, h, j - 1);
        assert(cs.len() == h);
        assert forall|i: int| 0 <= i < cs.len() implies cs[i] == blocked1(n, row, col, i, j - 1) by {
            lemma_coord_in_bounds(i, j - 1, n as int, h as int);
            lemma_lin_decompose(i, j - 1, h as int);
        }
        if j - 1 == col {
            lemma_count_half_plus_one(cs, n, row);
        } else {
            lemma_count_zero(cs);
        }
    }
}

/// Mask cardinality: for any scheme size `n >= 1` the 1-D blocked set
/// holds exactly `n + 1` cells, whatever target was drawn.
pub proof fn lemma_mask1_cardinality(n: nat, row: int, col: int)
    requires
        1 <= n,
        0 <= row < n,
        0 <= col < n,
    ensures
        count_trues(blocked1_bits(n, row, col)) == n + 1,
{
    let v = blocked1_bits(n, row, col);
    lemma_count_by_cols(v, n, 2 * n);
    lemma_mask1_sum(n, row, col, n as int);
}

/// The 1-D scheme: grid width `n`, height `2n`, stored column-wise so
/// column counting is a prefix-count difference.
pub struct Grid1dErasure {
    pub n: usize,
    pub grid: Grid,
}

impl Grid1dErasure {
    /// Wrap an existing grid of the scheme's extent; any other extent is
    /// rejected.
    pub fn from_grid(grid: Grid, n: usize) -> (r: Result<Grid1dErasure, ()>)
        requires
            grid.wf(),
        ensures
            r is Ok <==> (grid.w == n && grid.h == 2 * n),
            r is Ok ==> r == Ok::<Grid1dErasure, ()>((Grid1dErasure { n, grid })),
    {
        if n <= usize::MAX / 2 {
            if grid.w() != n || grid.h() != 2 * n {
                return Err(());
            }
            Ok(Grid1dErasure { n, grid })
        } else {
            // the height 2n would exceed usize::MAX, so no grid matches
            Err(())
        }
    }
}

impl Reconstructable for Grid1dErasure {
    open spec fn wf(&self) -> bool {
        &&& self.grid.wf()
        &&& self.grid.w == self.n
        &&& self.grid.h == 2 * self.n
    }

    open spec fn scheme_size(&self) -> nat {
        self.n as nat
    }

    open spec fn bits(&self) -> Seq<bool> {
        self.grid.bits()
    }

    open spec fn extent_w(n: nat) -> nat {
        n
    }

    open spec fn extent_h(n: nat) -> nat {
        2 * n
    }

    open spec fn blocked_count(n: nat) -> nat {
        n + 1
    }

    open spec fn mask_bits(n: nat, row: int, col: int) -> Seq<bool> {
        mask1_bits(n, row, col)
    }

    /// Direct hit, or a column with at least `n` of its `2n` cells.
    open spec fn can_reconstruct_spec(v: Seq<bool>, n: nat, i: (usize, usize)) -> bool {
        cell_of(v, 2 * n, i.0 as int, i.1 as int) || col_count(v, 2 * n, i.1 as int) >= n
    }

    open spec fn spec_dims() -> nat {
        1
    }

    fn dims() -> usize {
        1
    }

    fn new(n: usize) -> (s: Self)
    {
        proof {
            lemma_mul_le(1, n as int, 2 * (n as int));
        }
        Grid1dErasure { n, grid: Grid::new(n, 2 * n) }
    }

    fn grid_size(&self) -> usize {
        self.n
    }

    fn new_mask(rng: &mut rand::rngs::SmallRng, n: usize) -> (r: (Grid, (usize, usize))) {
        proof {
            lemma_mul_le(1, n as int, 2 * (n as int));
        }
        let h = 2 * n;
        let mut mask = Grid::new(n, h);
        let row = rand_below(rng, n);
        let col = rand_below(rng, n);
        proof {
            assert forall|a: int, b: int| 0 <= a < h && 0 <= b < n implies !cell_of(
                mask.bits(),
                h as nat,
                a,
                b,
            ) by {
                lemma_coord_in_bounds(a, b, n as int, h as int);
            }
        }
        let ghost empty_bits = mask.bits();
        mask.set(row, col, true);
        proof {
            assert forall|a: int, b: int| 0 <= a < h && 0 <= b < n implies #[trigger] cell_of(
                mask.bits(),
                h as nat,
                a,
                b,
            ) == (b == col && (a == row || n <= a < n)) by {
                lemma_coord_in_bounds(a, b, n as int, h as int);
                lemma_coord_in_bounds(row as int, col as int, n as int, h as int);
                if a + b * h == row + col * h {
                    lemma_coord_injective(a, b, row as int, col as int, n as int, h as int);
                } else {
                    assert(cell_of(mask.bits(), h as nat, a, b) == cell_of(
                        empty_bits,
                        h as nat,
                        a,
                        b,
                    ));
                }
            }
        }
        for i in n..h
            invariant
                mask.wf(),
                mask.w == n,
                mask.h == h,
                h == 2 * n,
                1 <= n,
                row < n,
                col < n,
                forall|a: int, b: int|
                    0 <= a < h && 0 <= b < n ==> #[trigger] cell_of(mask.bits(), h as nat, a, b)
                        == (b == col && (a == row || n <= a < i)),
        {
            let ghost before = mask.bits();
            mask.set(i, col, true);
            proof {
                assert forall|a: int, b: int| 0 <= a < h && 0 <= b < n implies #[trigger] cell_of(
                    mask.bits(),
                    h as nat,
                    a,
                    b,
                ) == (b == col && (a == row || n <= a < i + 1)) by {
                    lemma_coord_in_bounds(a, b, n as int, h as int);
                    lemma_coord_in_bounds(i as int, col as int, n as int, h as int);
                    if a + b * h == i + col * h {
                        lemma_coord_injective(a, b, i as int, col as int, n as int, h as int);
                    } else {
                        assert(cell_of(mask.bits(), h as nat, a, b) == cell_of(
                            before,
                            h as nat,
                            a,
                            b,
                        ));
                    }
                }
            }
        }
        proof {
            let bb = blocked1_bits(n as nat, row as int, col as int);
            assert(bb.len() == n * h);
            assert forall|a: int, b: int| 0 <= a < h && 0 <= b < n implies #[trigger] cell_of(
                mask.bits(),
                h as nat,
                a,
                b,
            ) == cell_of(bb, h as nat, a, b) by {
                lemma_coord_in_bounds(a, b, n as int, h as int);
                lemma_lin_decompose(a, b, h as int);
            }
            lemma_bits_eq_by_cells(mask.bits(), bb, n as nat, h as nat);
        }
        let m = mask.not();
        proof {
            let bb = blocked1_bits(n as nat, row as int, col as int);
            assert(not_bits(not_bits(bb)) =~= bb);
            lemma_mask1_cardinality(n as nat, row as int, col as int);
        }
        (m, (row, col))
    }

    fn can_reconstruct(&self, i: (usize, usize)) -> (r: bool) {
        let (row, col) = i;
        if self.grid.get(row, col) {
            return true;
        }
        self.grid.count_columnar(col) >= self.n
    }

    proof fn lemma_empty_never_reconstructs(n: nat, i: (usize, usize)) {
        let h: nat = 2 * n;
        let v = all_false(n * h);
        lemma_coord_in_bounds(i.0 as int, i.1 as int, n as int, h as int);
        lemma_mul_le(0, i.1 as int, h as int);
        lemma_mul_le(i.1 as int + 1, n as int, h as int);
        lemma_succ_mul(i.1 as int, h as int);
        let cs = col_seq(v, h, i.1 as int);
        assert(forall|x: int| 0 <= x < cs.len() ==> !cs[x]);
        lemma_count_zero(cs);
    }

    fn sample(
        &mut self,
        rng: &mut rand::rngs::SmallRng,
        amount: usize,
        strategy: &SampleStrategy,
    ) {
        self.grid.sample(rng, amount, strategy)
    }

    fn sample_exclusion(
        &mut self,
        rng: &mut rand::rngs::SmallRng,
        amount: usize,
        strategy: &SampleStrategy,
        mask: &Grid,
    ) {
        self.sample(rng, amount, strategy);
        let ghost mid = self.grid.bits();
        self.grid.and_inplace(mask);
        proof {
            assert(final(self).bits() == and_bits(mid, mask.bits()));
        }
    }

    fn merge(self, other: Self) -> (r: Self) {
        Grid1dErasure { n: self.n, grid: self.grid.bitor(other.grid) }
    }
}

impl PartialEq for Grid1dErasure {
    fn eq(&self, other: &Grid1dErasure) -> bool {
        self.n == other.n && self.grid == other.grid
    }
}

impl vstd::std_specs::cmp::PartialEqSpecImpl for Grid1dErasure {
    open spec fn obeys_eq_spec() -> bool {
        true
    }

    open spec fn eq_spec(&self, other: &Grid1dErasure) -> bool {
        self.n == other.n && self.grid.w == other.grid.w && self.grid.h == other.grid.h
            && bits_of(self.grid.bv) == bits_of(other.grid.bv)
    }
}

} // verus!
