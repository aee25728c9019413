//! Two-dimensional erasure layout: logical size `n` gives a `2n x 2n`
//! grid. A first interpolation doubles the width and a second doubles the
//! height, so the quadrant `[0, n) x [0, n)` is primary data and the rest
//! redundancy. A cell reconstructs directly, or through the row/column
//! saturation fixed point: a column holding at least `w/2` cells, or a row
//! holding at least `h/2`, is treated as fully decodable, which can
//! cascade.
use crate::base_grid::{
    cell_of, col_count, col_seq, lemma_bits_eq_by_cells, lemma_coord_in_bounds,
    lemma_coord_decompose, lemma_coord_injective, lemma_count_by_cols, lemma_lin_decompose,
    lemma_mul_le, lemma_succ_mul,
    row_count, row_seq, sum_col_counts, Grid, SampleStrategy,
};
use crate::bitspec::{
    all_false, and_bits, count_trues, lemma_count_half_plus_one, lemma_count_le_len,
    lemma_count_pointwise_lt, lemma_count_zero, not_bits,
};
use crate::bitstore::bits_of;
use crate::rng::rand_below;
use crate::traits::Reconstructable;
use vstd::prelude::*;

verus! {

/// A cell the scheme blocks for target `(row, col)`: the target itself,
/// the redundant extension of its row and of its column, and the whole
/// last quadrant.
pub open spec fn blocked2(n: nat, row: int, col: int, i: int, j: int) -> bool {
    ||| (i == row && j == col)
    ||| (i == row && n <= j)
    ||| (j == col && n <= i)
    ||| (n <= i && n <= j)
}

/// The blocked set written out as a `2n x 2n` bit grid.
pub open spec fn blocked2_bits(n: nat, row: int, col: int) -> Seq<bool> {
    Seq::new(
        (2 * n) * (2 * n),
        |t: int| blocked2(n, row, col, t % ((2 * n) as int), t / ((2 * n) as int)),
    )
}

/// The allowed-cell mask: the complement of the blocked set.
pub open spec fn mask2_bits(n: nat, row: int, col: int) -> Seq<bool> {
    not_bits(blocked2_bits(n, row, col))
}

proof fn lemma_mask2_sum(n: nat, row: int, col: int, j: int)
    requires
        1 <= n,
        0 <= row < n,
        0 <= col < n,
        0 <= j <= 2 * n,
    ensures
        sum_col_counts(blocked2_bits(n, row, col), 2 * n, j) == (if j > col {
            (n + 1) as int
        } else {
            0int
        }) + (if j > n {
            (j - n) * ((n + 1) as int)
        } else {
            0int
        }),
    decreases j,
{
    let h: nat = 2 * n;
    let v = blocked2_bits(n, row, col);
    if j > 0 {
        lemma_mask2_sum(n, row, col, j - 1);
        lemma_succ_mul(j - 1, h as int);
        lemma_mul_le(0, j - 1, h as int);
        lemma_mul_le(j, 2 * (n as int), h as int);
        let cs = col_seq(v, h, j - 1);
        assert(cs.len() == h);
        assert forall|i: int| 0 <= i < cs.len() implies cs[i] == blocked2(n, row, col, i, j - 1) by {
            lemma_coord_in_bounds(i, j - 1, h as int, h as int);
            lemma_lin_decompose(i, j - 1, h as int);
        }
        if j - 1 == col || n <= j - 1 {
            assert(forall|i: int| 0 <= i < cs.len() ==> (cs[i] <==> (i == row || n <= i)));
            lemma_count_half_plus_one(cs, n, row);
        } else {
            lemma_count_zero(cs);
        }
        if j == n + 1 {
            assert((j - n) * ((n + 1) as int) == (n + 1) as int) by (nonlinear_arith)
                requires
                    j == n + 1,
            ;
        } else if j > n + 1 {
            lemma_succ_mul(j - 1 - n, (n + 1) as int);
        }
    }
}

/// Mask cardinality: for any scheme size `n >= 1` the 2-D blocked set
/// holds exactly `n^2 + 2n + 1` cells, whatever target was drawn.
pub proof fn lemma_mask2_cardinality(n: nat, row: int, col: int)
    requires
        1 <= n,
        0 <= row < n,
        0 <= col < n,
    ensures
        count_trues(blocked2_bits(n, row, col)) == n * n + 2 * n + 1,
{
    let v = blocked2_bits(n, row, col);
    lemma_count_by_cols(v, 2 * n, 2 * n);
    lemma_mask2_sum(n, row, col, 2 * (n as int));
    assert((n as int) * ((n + 1) as int) + ((n + 1) as int) == (n as int) * (n as int) + 2 * n + 1)
        by (nonlinear_arith);
}

/// One saturation pass over `v`: a cell is set afterwards if it was, or
/// its column meets the threshold `w/2`, or its row meets `h/2` -- all
/// counts taken on the grid the pass started from.
pub open spec fn pass_bits(v: Seq<bool>, w: nat, h: nat) -> Seq<bool> {
    Seq::new(
        v.len(),
        |t: int|
            v[t] || col_count(v, h, t / (h as int)) >= w / 2 || row_count(v, w, h, t % (h as int))
                >= h / 2,
    )
}

/// `k` saturation passes.
pub open spec fn pass_iter(v: Seq<bool>, w: nat, h: nat, k: nat) -> Seq<bool>
    decreases k,
{
    if k == 0 {
        v
    } else {
        pass_bits(pass_iter(v, w, h, (k - 1) as nat), w, h)
    }
}

/// The target is reconstructable through the fixed point: some number of
/// passes sets its cell.
pub open spec fn recon_reaches(v: Seq<bool>, w: nat, h: nat, i: int, j: int) -> bool {
    exists|k: nat| cell_of(pass_iter(v, w, h, k), h, i, j)
}

pub proof fn lemma_pass_iter_len(v: Seq<bool>, w: nat, h: nat, k: nat)
    ensures
        pass_iter(v, w, h, k).len() == v.len(),
    decreases k,
{
    if k > 0 {
        lemma_pass_iter_len(v, w, h, (k - 1) as nat);
    }
}

/// A pass only adds cells, so the pass iterates form a pointwise chain.
pub proof fn lemma_pass_iter_le(v: Seq<bool>, w: nat, h: nat, a: nat, b: nat)
    requires
        a <= b,
    ensures
        forall|t: int|
            0 <= t < v.len() ==> (#[trigger] pass_iter(v, w, h, a)[t] ==> pass_iter(v, w, h, b)[t]),
    decreases b,
{
    lemma_pass_iter_len(v, w, h, a);
    lemma_pass_iter_len(v, w, h, b);
    if b > 0 && a < b {
        lemma_pass_iter_le(v, w, h, a, (b - 1) as nat);
        lemma_pass_iter_len(v, w, h, (b - 1) as nat);
    }
}

/// Iterating `a + b` passes is iterating `b` passes on the result of `a`.
pub proof fn lemma_pass_iter_compose(v: Seq<bool>, w: nat, h: nat, a: nat, b: nat)
    ensures
        pass_iter(v, w, h, a + b) == pass_iter(pass_iter(v, w, h, a), w, h, b),
    decreases b,
{
    if b > 0 {
        lemma_pass_iter_compose(v, w, h, a, (b - 1) as nat);
        assert(a + b - 1 == a + ((b - 1) as nat));
    }
}

/// Once a pass changes nothing, every further pass leaves the grid as it
/// stands: the reconstruction fixed point is idempotent once reached.
pub proof fn lemma_pass_fixpoint_stable(v: Seq<bool>, w: nat, h: nat, k: nat)
    requires
        pass_bits(v, w, h) == v,
    ensures
        pass_iter(v, w, h, k) == v,
    decreases k,
{
    if k > 0 {
        lemma_pass_fixpoint_stable(v, w, h, (k - 1) as nat);
    }
}

/// One reconstruction pass, in place: saturate every column meeting the
/// column threshold and every row meeting the row threshold, both judged
/// by the counts of the grid the pass started from. Reports whether the
/// grid changed.
pub fn reconstruct(grid: &mut Grid) -> (changed: bool)
    requires
        old(grid).wf(),
    ensures
        final(grid).wf(),
        final(grid).w == old(grid).w,
        final(grid).h == old(grid).h,
        final(grid).bits() == pass_bits(old(grid).bits(), old(grid).w as nat, old(grid).h as nat),
        changed == (final(grid).bits() != old(grid).bits()),
{
    let starting_grid = grid.clone();
    let (col_c, row_c) = grid.col_row_counts();
    let w = grid.w();
    let h = grid.h();
    let ghost v0 = grid.bits();
    for j in 0..w
        invariant
            grid.wf(),
            grid.w == w,
            grid.h == h,
            v0.len() == w * h,
            col_c@.len() == w,
            forall|t: int| 0 <= t < w ==> col_c@[t] == col_count(v0, h as nat, t),
            forall|a: int, b: int|
                0 <= a < h && 0 <= b < w ==> #[trigger] cell_of(grid.bits(), h as nat, a, b) == (
                cell_of(v0, h as nat, a, b) || (b < j && col_count(v0, h as nat, b) >= w / 2)),
    {
        if col_c[j] >= w / 2 {
            for i in 0..h
                invariant
                    grid.wf(),
                    grid.w == w,
                    grid.h == h,
                    j < w,
                    col_count(v0, h as nat, j as int) >= w / 2,
                    forall|a: int, b: int|
                        0 <= a < h && 0 <= b < w ==> #[trigger] cell_of(grid.bits(), h as nat, a, b)
                            == (cell_of(v0, h as nat, a, b) || (b < j && col_count(v0, h as nat, b)
                            >= w / 2) || (b == j && a < i)),
            {
                let ghost before = grid.bits();
                grid.set(i, j, true);
                proof {
                    assert forall|a: int, b: int|
                        0 <= a < h && 0 <= b < w implies #[trigger] cell_of(
                        grid.bits(),
                        h as nat,
                        a,
                        b,
                    ) == (cell_of(v0, h as nat, a, b) || (b < j && col_count(v0, h as nat, b) >= w
                        / 2) || (b == j && a < i + 1)) by {
                        lemma_coord_in_bounds(a, b, w as int, h as int);
                        lemma_coord_in_bounds(i as int, j as int, w as int, h as int);
                        if a + b * h == i + j * h {
                            lemma_coord_injective(a, b, i as int, j as int, w as int, h as int);
                        } else {
                            assert(cell_of(grid.bits(), h as nat, a, b) == cell_of(
                                before,
                                h as nat,
                                a,
                                b,
                            ));
                        }
                    }
                }
            }
        }
    }
    let ghost v1 = grid.bits();
    for i in 0..h
        invariant
            grid.wf(),
            grid.w == w,
            grid.h == h,
            v0.len() == w * h,
            v1.len() == w * h,
            row_c@.len() == h,
            forall|t: int| 0 <= t < h ==> row_c@[t] == row_count(v0, w as nat, h as nat, t),
            forall|a: int, b: int|
                0 <= a < h && 0 <= b < w ==> #[trigger] cell_of(v1, h as nat, a, b) == (cell_of(
                    v0,
                    h as nat,
                    a,
                    b,
                ) || col_count(v0, h as nat, b) >= w / 2),
            forall|a: int, b: int|
                0 <= a < h && 0 <= b < w ==> #[trigger] cell_of(grid.bits(), h as nat, a, b) == (
                cell_of(v1, h as nat, a, b) || (a < i && row_count(v0, w as nat, h as nat, a) >= h
                    / 2)),
    {
        if row_c[i] >= h / 2 {
            for j in 0..w
                invariant
                    grid.wf(),
                    grid.w == w,
                    grid.h == h,
                    i < h,
                    v1.len() == w * h,
                    row_count(v0, w as nat, h as nat, i as int) >= h / 2,
                    forall|a: int, b: int|
                        0 <= a < h && 0 <= b < w ==> #[trigger] cell_of(grid.bits(), h as nat, a, b)
                            == (cell_of(v1, h as nat, a, b) || (a < i && row_count(
                            v0,
                            w as nat,
                            h as nat,
                            a,
                        ) >= h / 2) || (a == i && b < j)),
            {
                let ghost before = grid.bits();
                grid.set(i, j, true);
                proof {
                    assert forall|a: int, b: int|
                        0 <= a < h && 0 <= b < w implies #[trigger] cell_of(
                        grid.bits(),
                        h as nat,
                        a,
                        b,
                    ) == (cell_of(v1, h as nat, a, b) || (a < i && row_count(
                        v0,
                        w as nat,
                        h as nat,
                        a,
                    ) >= h / 2) || (a == i && b < j + 1)) by {
                        lemma_coord_in_bounds(a, b, w as int, h as int);
                        lemma_coord_in_bounds(i as int, j as int, w as int, h as int);
                        if a + b * h == i + j * h {
                            lemma_coord_injective(a, b, i as int, j as int, w as int, h as int);
                        } else {
                            assert(cell_of(grid.bits(), h as nat, a, b) == cell_of(
                                before,
                                h as nat,
                                a,
                                b,
                            ));
                        }
                    }
                }
            }
        }
    }
    proof {
        let pb = pass_bits(v0, w as nat, h as nat);
        assert(pb.len() == v0.len());
        if h == 0 {
            assert(grid.bits() =~= pb);
        } else {
            assert forall|a: int, b: int| 0 <= a < h && 0 <= b < w implies #[trigger] cell_of(
                grid.bits(),
                h as nat,
                a,
                b,
            ) == cell_of(pb, h as nat, a, b) by {
                lemma_coord_in_bounds(a, b, w as int, h as int);
                lemma_lin_decompose(a, b, h as int);
            }
            lemma_bits_eq_by_cells(grid.bits(), pb, w as nat, h as nat);
        }
    }
    let changed = !(*grid == starting_grid);
    changed
}

/// The 2-D scheme: grid width and height both `2n`.
pub struct Grid2dErasure {
    pub n: usize,
    pub grid: Grid,
}

impl Grid2dErasure {
    /// Wrap an existing grid of the scheme's extent; any other extent is
    /// rejected.
    pub fn from_grid(grid: Grid, n: usize) -> (r: Result<Grid2dErasure, ()>)
        requires
            grid.wf(),
        ensures
            r is Ok <==> (grid.w == 2 * n && grid.h == 2 * n),
            r is Ok ==> r == Ok::<Grid2dErasure, ()>((Grid2dErasure { n, grid })),
    {
        if n <= usize::MAX / 2 {
            if grid.w() != 2 * n || grid.h() != 2 * n {
                return Err(());
            }
            Ok(Grid2dErasure { n, grid })
        } else {
            // the extent 2n would exceed usize::MAX, so no grid matches
            Err(())
        }
    }
}

impl Reconstructable for Grid2dErasure {
    open spec fn wf(&self) -> bool {
        &&& self.grid.wf()
        &&& self.grid.w == 2 * self.n
        &&& self.grid.h == 2 * self.n
    }

    open spec fn scheme_size(&self) -> nat {
        self.n as nat
    }

    open spec fn bits(&self) -> Seq<bool> {
        self.grid.bits()
    }

    open spec fn extent_w(n: nat) -> nat {
        2 * n
    }

    open spec fn extent_h(n: nat) -> nat {
        2 * n
    }

    open spec fn blocked_count(n: nat) -> nat {
        n * n + 2 * n + 1
    }

    open spec fn mask_bits(n: nat, row: int, col: int) -> Seq<bool> {
        mask2_bits(n, row, col)
    }

    /// Direct hit, or reachable through the saturation fixed point.
    open spec fn can_reconstruct_spec(v: Seq<bool>, n: nat, i: (usize, usize)) -> bool {
        recon_reaches(v, 2 * n, 2 * n, i.0 as int, i.1 as int)
    }

    open spec fn spec_dims() -> nat {
        2
    }

    fn dims() -> usize {
        2
    }

    fn new(n: usize) -> (s: Self) {
        proof {
            lemma_mul_le(1, 2 * (n as int), 2 * (n as int));
        }
        Grid2dErasure { n, grid: Grid::new(2 * n, 2 * n) }
    }

    fn grid_size(&self) -> usize {
        self.n
    }

    fn new_mask(rng: &mut rand::rngs::SmallRng, n: usize) -> (r: (Grid, (usize, usize))) {
        proof {
            lemma_mul_le(1, 2 * (n as int), 2 * (n as int));
        }
        let h = 2 * n;
        let mut mask = Grid::new(h, h);
        let col = rand_below(rng, n);
        let row = rand_below(rng, n);
        proof {
            assert forall|a: int, b: int| 0 <= a < h && 0 <= b < h implies !cell_of(
                mask.bits(),
                h as nat,
                a,
                b,
            ) by {
                lemma_coord_in_bounds(a, b, h as int, h as int);
            }
        }
        let ghost empty_bits = mask.bits();
        mask.set(row, col, true);
        proof {
            assert forall|a: int, b: int| 0 <= a < h && 0 <= b < h implies #[trigger] cell_of(
                mask.bits(),
                h as nat,
                a,
                b,
            ) == (a == row && b == col) by {
                lemma_coord_in_bounds(a, b, h as int, h as int);
                lemma_coord_in_bounds(row as int, col as int, h as int, h as int);
                if a + b * h == row + col * h {
                    lemma_coord_injective(a, b, row as int, col as int, h as int, h as int);
                } else {
                    assert(cell_of(mask.bits(), h as nat, a, b) == cell_of(
                        empty_bits,
                        h as nat,
                        a,
                        b,
                    ));
                }
            }
        }
        for k in n..h
            invariant
                mask.wf(),
                mask.w == h,
                mask.h == h,
                h == 2 * n,
                1 <= n,
                row < n,
                col < n,
                forall|a: int, b: int|
                    0 <= a < h && 0 <= b < h ==> #[trigger] cell_of(mask.bits(), h as nat, a, b)
                        == ((a == row && b == col) || (a == row && n <= b < k) || (b == col && n
                        <= a < k)),
        {
            let ghost before_r = mask.bits();
            mask.set(row, k, true);
            proof {
                assert forall|a: int, b: int| 0 <= a < h && 0 <= b < h implies #[trigger] cell_of(
                    mask.bits(),
                    h as nat,
                    a,
                    b,
                ) == ((a == row && b == col) || (a == row && n <= b < k + 1) || (b == col && n <= a
                    < k)) by {
                    lemma_coord_in_bounds(a, b, h as int, h as int);
                    lemma_coord_in_bounds(row as int, k as int, h as int, h as int);
                    if a + b * h == row + k * h {
                        lemma_coord_injective(a, b, row as int, k as int, h as int, h as int);
                    } else {
                        assert(cell_of(mask.bits(), h as nat, a, b) == cell_of(
                            before_r,
                            h as nat,
                            a,
                            b,
                        ));
                    }
                }
            }
            let ghost before_c = mask.bits();
            mask.set(k, col, true);
            proof {
                assert forall|a: int, b: int| 0 <= a < h && 0 <= b < h implies #[trigger] cell_of(
                    mask.bits(),
                    h as nat,
                    a,
                    b,
                ) == ((a == row && b == col) || (a == row && n <= b < k + 1) || (b == col && n <= a
                    < k + 1)) by {
                    lemma_coord_in_bounds(a, b, h as int, h as int);
                    lemma_coord_in_bounds(k as int, col as int, h as int, h as int);
                    if a + b * h == k + col * h {
                        lemma_coord_injective(a, b, k as int, col as int, h as int, h as int);
                    } else {
                        assert(cell_of(mask.bits(), h as nat, a, b) == cell_of(
                            before_c,
                            h as nat,
                            a,
                            b,
                        ));
                    }
                }
            }
        }
        for qi in n..h
            invariant
                mask.wf(),
                mask.w == h,
                mask.h == h,
                h == 2 * n,
                1 <= n,
                row < n,
                col < n,
                forall|a: int, b: int|
                    0 <= a < h && 0 <= b < h ==> #[trigger] cell_of(mask.bits(), h as nat, a, b)
                        == ((a == row && b == col) || (a == row && n <= b) || (b == col && n <= a)
                        || (n <= a < qi && n <= b)),
        {
            for qj in n..h
                invariant
                    mask.wf(),
                    mask.w == h,
                    mask.h == h,
                    h == 2 * n,
                    1 <= n,
                    row < n,
                    col < n,
                    n <= qi < h,
                    forall|a: int, b: int|
                        0 <= a < h && 0 <= b < h ==> #[trigger] cell_of(mask.bits(), h as nat, a, b)
                            == ((a == row && b == col) || (a == row && n <= b) || (b == col && n
                            <= a) || (n <= a < qi && n <= b) || (a == qi && n <= b < qj)),
            {
                let ghost before_q = mask.bits();
                mask.set(qi, qj, true);
                proof {
                    assert forall|a: int, b: int|
                        0 <= a < h && 0 <= b < h implies #[trigger] cell_of(
                        mask.bits(),
                        h as nat,
                        a,
                        b,
                    ) == ((a == row && b == col) || (a == row && n <= b) || (b == col && n <= a) || (
                    n <= a < qi && n <= b) || (a == qi && n <= b < qj + 1)) by {
                        lemma_coord_in_bounds(a, b, h as int, h as int);
                        lemma_coord_in_bounds(qi as int, qj as int, h as int, h as int);
                        if a + b * h == qi + qj * h {
                            lemma_coord_injective(a, b, qi as int, qj as int, h as int, h as int);
                        } else {
                            assert(cell_of(mask.bits(), h as nat, a, b) == cell_of(
                                before_q,
                                h as nat,
                                a,
                                b,
                            ));
                        }
                    }
                }
            }
        }
        proof {
            let bb = blocked2_bits(n as nat, row as int, col as int);
            assert(bb.len() == h * h);
            assert forall|a: int, b: int| 0 <= a < h && 0 <= b < h implies #[trigger] cell_of(
                mask.bits(),
                h as nat,
                a,
                b,
            ) == cell_of(bb, h as nat, a, b) by {
                lemma_coord_in_bounds(a, b, h as int, h as int);
                lemma_lin_decompose(a, b, h as int);
            }
            lemma_bits_eq_by_cells(mask.bits(), bb, h as nat, h as nat);
        }
        let m = mask.not();
        proof {
            let bb = blocked2_bits(n as nat, row as int, col as int);
            assert(not_bits(not_bits(bb)) =~= bb);
            lemma_mask2_cardinality(n as nat, row as int, col as int);
        }
        (m, (row, col))
    }

    fn can_reconstruct(&self, i: (usize, usize)) -> (r: bool) {
        let (ti, tj) = i;
        let ghost orig = self.grid.bits();
        let ghost wn = self.grid.w as nat;
        let ghost hn = self.grid.h as nat;
        if self.grid.get(ti, tj) {
            proof {
                assert(cell_of(pass_iter(orig, wn, hn, 0), hn, ti as int, tj as int));
            }
            return true;
        }
        let mut rgrid = self.grid.clone();
        let mut changed = true;
        let ghost mut k: nat = 0;
        while changed
            invariant
                rgrid.wf(),
                rgrid.w as nat == wn,
                rgrid.h as nat == hn,
                orig.len() == wn * hn,
                rgrid.bits() == pass_iter(orig, wn, hn, k),
                !changed ==> pass_bits(rgrid.bits(), wn, hn) == rgrid.bits(),
            decreases (wn * hn - count_trues(rgrid.bits())) + if changed {
                1int
            } else {
                0int
            },
        {
            let ghost prevbits = rgrid.bits();
            changed = reconstruct(&mut rgrid);
            proof {
                k = k + 1;
                lemma_count_le_len(rgrid.bits());
                if changed {
                    let nb = rgrid.bits();
                    assert(forall|t: int| 0 <= t < prevbits.len() ==> (prevbits[t] ==> nb[t]));
                    assert(exists|t: int| 0 <= t < prevbits.len() && prevbits[t] != nb[t]) by {
                        if forall|t: int| 0 <= t < prevbits.len() ==> prevbits[t] == nb[t] {
                            assert(prevbits =~= nb);
                        }
                    }
                    let t = choose|t: int| 0 <= t < prevbits.len() && prevbits[t] != nb[t];
                    lemma_count_pointwise_lt(prevbits, nb, t);
                }
            }
        }
        let res = rgrid.get(ti, tj);
        proof {
            lemma_coord_in_bounds(ti as int, tj as int, wn as int, hn as int);
            if res {
                assert(cell_of(pass_iter(orig, wn, hn, k), hn, ti as int, tj as int));
            } else {
                assert forall|m: nat|
                    !cell_of(#[trigger] pass_iter(orig, wn, hn, m), hn, ti as int, tj as int) by {
                    lemma_pass_iter_len(orig, wn, hn, m);
                    if m <= k {
                        lemma_pass_iter_le(orig, wn, hn, m, k);
                    } else {
                        assert(k + ((m - k) as nat) == m);
                        lemma_pass_iter_compose(orig, wn, hn, k, (m - k) as nat);
                        lemma_pass_fixpoint_stable(rgrid.bits(), wn, hn, (m - k) as nat);
                    }
                }
            }
        }
        res
    }

    proof fn lemma_empty_never_reconstructs(n: nat, i: (usize, usize)) {
        let h: nat = 2 * n;
        let v = all_false(h * h);
        assert(pass_bits(v, h, h) =~= v) by {
            vstd::arithmetic::div_mod::lemma_div_multiples_vanish(n as int, 2);
            assert forall|t: int| 0 <= t < v.len() implies pass_bits(v, h, h)[t] == v[t] by {
                lemma_coord_decompose(t, h as int, h as int);
                let tj = t / (h as int);
                let ti = t % (h as int);
                lemma_mul_le(0, tj, h as int);
                lemma_mul_le(tj + 1, h as int, h as int);
                lemma_succ_mul(tj, h as int);
                let cs = col_seq(v, h, tj);
                assert(forall|x: int| 0 <= x < cs.len() ==> !cs[x]);
                lemma_count_zero(cs);
                let rs = row_seq(v, h, h, ti);
                assert forall|x: int| 0 <= x < rs.len() implies !rs[x] by {
                    lemma_coord_in_bounds(ti, x, h as int, h as int);
                }
                lemma_count_zero(rs);
            }
        }
        assert forall|k: nat|
            !cell_of(#[trigger] pass_iter(v, h, h, k), h, i.0 as int, i.1 as int) by {
            lemma_pass_fixpoint_stable(v, h, h, k);
            lemma_coord_in_bounds(i.0 as int, i.1 as int, h as int, h as int);
        }
    }

    fn sample(
        &mut self,
        rng: &mut rand::rngs::SmallRng,
        amount: usize,
        strategy: &SampleStrategy,
    ) {
        self.grid.sample(rng, amount, strategy)
    }

    fn sample_exclusion(
        &mut self,
        rng: &mut rand::rngs::SmallRng,
        amount: usize,
        strategy: &SampleStrategy,
        mask: &Grid,
    ) {
        self.sample(rng, amount, strategy);
        let ghost mid = self.grid.bits();
        self.grid.and_inplace(mask);
        proof {
            assert(final(self).bits() == and_bits(mid, mask.bits()));
        }
    }

    fn merge(self, other: Self) -> (r: Self) {
        Grid2dErasure { n: self.n, grid: self.grid.bitor(other.grid) }
    }
}

impl PartialEq for Grid2dErasure {
    fn eq(&self, other: &Grid2dErasure) -> bool {
        self.n == other.n && self.grid == other.grid
    }
}

impl vstd::std_specs::cmp::PartialEqSpecImpl for Grid2dErasure {
    open spec fn obeys_eq_spec() -> bool {
        true
    }

    open spec fn eq_spec(&self, other: &Grid2dErasure) -> bool {
        self.n == other.n && self.grid.w == other.grid.w && self.grid.h == other.grid.h
            && bits_of(self.grid.bv) == bits_of(other.grid.bv)
    }
}

} // verus!
