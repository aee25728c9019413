//! Dense boolean matrix over packed bit storage, stored column-major:
//! cell `(row, col)` lives at linear index `row + col * h`. All contracts
//! are stated over the bit sequence `Grid::bits` and the cell/column/row
//! spec functions below.
use crate::bitspec::{
    all_false, and_bits, count_trues, lemma_count_add, lemma_count_le_len, lemma_count_range,
    lemma_count_singleton, lemma_count_subrange_split, lemma_count_subrange_step,
    lemma_count_take_step, lemma_count_update, lemma_count_zero, not_bits, or_bits,
};
use crate::rng::rand_below;
use crate::bitstore::{
    bits_of, bv_and_inplace, bv_clone, bv_count_ones, bv_count_ones_before, bv_eq, bv_get, bv_len,
    bv_or, bv_set, bv_zeros, PackedBits,
};
use vstd::prelude::*;

verus! {

/// Cell `(i, j)` of a column-major bit sequence with column height `h`.
pub open spec fn cell_of(v: Seq<bool>, h: nat, i: int, j: int) -> bool {
    v[i + j * h]
}

/// Column `j` as a contiguous slice of the storage.
pub open spec fn col_seq(v: Seq<bool>, h: nat, j: int) -> Seq<bool> {
    v.subrange(j * h, (j + 1) * h)
}

/// Set-bit count of column `j`.
pub open spec fn col_count(v: Seq<bool>, h: nat, j: int) -> nat {
    count_trues(col_seq(v, h, j))
}

/// Row `i` gathered across the `w` columns.
pub open spec fn row_seq(v: Seq<bool>, w: nat, h: nat, i: int) -> Seq<bool> {
    Seq::new(w, |j: int| cell_of(v, h, i, j))
}

/// Set-bit count of row `i`.
pub open spec fn row_count(v: Seq<bool>, w: nat, h: nat, i: int) -> nat {
    count_trues(row_seq(v, w, h, i))
}

/// An in-range coordinate pair maps to an in-range linear index.
pub proof fn lemma_coord_in_bounds(i: int, j: int, w: int, h: int)
    by (nonlinear_arith)
    requires
        0 <= i < h,
        0 <= j < w,
    ensures
        0 <= i + j * h < w * h,
        j * h <= (w - 1) * h,
{
}

pub proof fn lemma_succ_mul(j: int, h: int)
    by (nonlinear_arith)
    ensures
        (j + 1) * h == j * h + h,
{
}

pub proof fn lemma_mul_le(a: int, b: int, c: int)
    by (nonlinear_arith)
    requires
        0 <= a,
        a <= b,
        0 <= c,
    ensures
        a * c <= b * c,
{
}

/// Distinct in-range coordinate pairs map to distinct linear indices.
pub proof fn lemma_coord_injective(i1: int, j1: int, i2: int, j2: int, w: int, h: int)
    by (nonlinear_arith)
    requires
        0 <= i1 < h,
        0 <= j1 < w,
        0 <= i2 < h,
        0 <= j2 < w,
        i1 + j1 * h == i2 + j2 * h,
    ensures
        i1 == i2,
        j1 == j2,
{
}

/// A linear index decomposes to the coordinates `(t % h, t / h)`.
pub proof fn lemma_coord_decompose(t: int, w: int, h: int)
    requires
        0 <= t < w * h,
        1 <= h,
    ensures
        0 <= t % h < h,
        0 <= t / h < w,
        t == (t % h) + (t / h) * h,
{
    vstd::arithmetic::div_mod::lemma_fundamental_div_mod(t, h);
    vstd::arithmetic::div_mod::lemma_mod_bound(t, h);
    vstd::arithmetic::div_mod::lemma_div_pos_is_pos(t, h);
    vstd::arithmetic::mul::lemma_mul_is_commutative(h, t / h);
    assert(t / h < w) by (nonlinear_arith)
        requires
            t == h * (t / h) + (t % h),
            0 <= t % h < h,
            t < w * h,
            0 <= t / h,
    ;
}

/// The linear index of an in-range coordinate pair decomposes back to it.
pub proof fn lemma_lin_decompose(i: int, j: int, h: int)
    requires
        0 <= i < h,
        0 <= j,
    ensures
        (i + j * h) % h == i,
        (i + j * h) / h == j,
{
    vstd::arithmetic::div_mod::lemma_fundamental_div_mod_converse_mod(i + j * h, h, j, i);
    vstd::arithmetic::div_mod::lemma_fundamental_div_mod_converse_div(i + j * h, h, j, i);
}

/// Two column-major sequences of the same `w * h` extent with equal cells
/// are equal.
pub proof fn lemma_bits_eq_by_cells(a: Seq<bool>, b: Seq<bool>, w: nat, h: nat)
    requires
        1 <= h,
        a.len() == w * h,
        b.len() == w * h,
        forall|i: int, j: int|
            0 <= i < h && 0 <= j < w ==> #[trigger] cell_of(a, h, i, j) == cell_of(b, h, i, j),
    ensures
        a =~= b,
{
    assert forall|t: int| 0 <= t < a.len() implies a[t] == b[t] by {
        lemma_coord_decompose(t, w as int, h as int);
        assert(cell_of(a, h, t % (h as int), t / (h as int)) == cell_of(
            b,
            h,
            t % (h as int),
            t / (h as int),
        ));
    }
}

/// Sum of the set-bit counts of the first `j` columns.
pub open spec fn sum_col_counts(v: Seq<bool>, h: nat, j: int) -> nat
    decreases j,
{
    if j <= 0 {
        0
    } else {
        sum_col_counts(v, h, j - 1) + col_count(v, h, j - 1)
    }
}

/// The first `j` columns hold `sum_col_counts` set bits.
pub proof fn lemma_count_prefix_cols(v: Seq<bool>, h: nat, j: int)
    requires
        0 <= j,
        1 <= h,
        j * h <= v.len(),
    ensures
        count_trues(v.take(j * h)) == sum_col_counts(v, h, j),
    decreases j,
{
    if j == 0 {
        assert(j * h == 0) by (nonlinear_arith)
            requires
                j == 0,
        ;
        assert(v.take(0) =~= Seq::<bool>::empty());
    } else {
        lemma_succ_mul(j - 1, h as int);
        lemma_mul_le(0, j - 1, h as int);
        lemma_count_prefix_cols(v, h, j - 1);
        assert(v.take(j * h) =~= v.take((j - 1) * h) + v.subrange((j - 1) * h, j * h));
        lemma_count_add(v.take((j - 1) * h), v.subrange((j - 1) * h, j * h));
        assert(v.subrange((j - 1) * h, j * h) =~= col_seq(v, h, j - 1));
    }
}

/// The total set-bit count is the sum over all columns.
pub proof fn lemma_count_by_cols(v: Seq<bool>, w: nat, h: nat)
    requires
        v.len() == w * h,
        1 <= h,
    ensures
        count_trues(v) == sum_col_counts(v, h, w as int),
{
    lemma_count_prefix_cols(v, h, w as int);
    assert(v.take((w as int) * h) =~= v);
}

/// Every draw names an in-range cell `(row, col)`.
pub open spec fn point_draws_ok(w: nat, h: nat, dr: Seq<(int, int)>) -> bool {
    forall|k: int| 0 <= k < dr.len() ==> 0 <= (#[trigger] dr[k]).0 < h && 0 <= dr[k].1 < w
}

/// The grid after marking each drawn cell observed, in draw order.
pub open spec fn apply_point_draws(v: Seq<bool>, h: nat, dr: Seq<(int, int)>) -> Seq<bool>
    decreases dr.len(),
{
    if dr.len() == 0 {
        v
    } else {
        apply_point_draws(v, h, dr.drop_last()).update(dr.last().0 + dr.last().1 * h, true)
    }
}

/// Every draw names an in-range tile `(block row, block col)`.
pub open spec fn tile_draws_ok(w: nat, h: nat, bw: nat, bh: nat, dr: Seq<(int, int)>) -> bool {
    forall|k: int| 0 <= k < dr.len() ==> 0 <= (#[trigger] dr[k]).0 < h / bh && 0 <= dr[k].1 < w / bw
}

/// Does cell `(i, j)` lie in the `bw x bh` tile at block coordinates `d`?
pub open spec fn in_tile(bw: nat, bh: nat, d: (int, int), i: int, j: int) -> bool {
    d.0 * bh <= i < d.0 * bh + bh && d.1 * bw <= j < d.1 * bw + bw
}

/// The grid after marking every cell of one drawn tile observed.
pub open spec fn apply_tile(v: Seq<bool>, h: nat, bw: nat, bh: nat, d: (int, int)) -> Seq<bool> {
    Seq::new(v.len(), |t: int| v[t] || in_tile(bw, bh, d, t % (h as int), t / (h as int)))
}

/// The grid after a sequence of tile draws, in draw order.
pub open spec fn apply_tile_draws(v: Seq<bool>, h: nat, bw: nat, bh: nat, dr: Seq<(int, int)>) -> Seq<
    bool,
>
    decreases dr.len(),
{
    if dr.len() == 0 {
        v
    } else {
        apply_tile(apply_tile_draws(v, h, bw, bh, dr.drop_last()), h, bw, bh, dr.last())
    }
}

/// What a strategy asks of the extent it samples: a tile must be nonempty
/// and tile the extent evenly; a point draw needs a nonempty grid.
pub open spec fn strategy_ok(s: SampleStrategy, w: nat, h: nat) -> bool {
    match s {
        SampleStrategy::Box { width, height } => {
            &&& 1 <= width <= w
            &&& 1 <= height <= h
            &&& w % (width as nat) == 0
            &&& h % (height as nat) == 0
        },
        SampleStrategy::RandomPoints => 1 <= w && 1 <= h,
    }
}

/// How a sampled grid `b` relates to the grid `a` it started from: some
/// sequence of `amount` in-range draws produced it. Which draws came out
/// is up to the randomness source; callers hold for every choice.
pub open spec fn sample_rel(
    a: Seq<bool>,
    b: Seq<bool>,
    w: nat,
    h: nat,
    amount: nat,
    s: SampleStrategy,
) -> bool {
    match s {
        SampleStrategy::RandomPoints => exists|dr: Seq<(int, int)>|
            dr.len() == amount && point_draws_ok(w, h, dr) && b == apply_point_draws(a, h, dr),
        SampleStrategy::Box { width, height } => exists|dr: Seq<(int, int)>|
            dr.len() == amount && tile_draws_ok(w, h, width as nat, height as nat, dr) && b
                == apply_tile_draws(a, h, width as nat, height as nat, dr),
    }
}

/// Sampling zero draws leaves the grid unchanged, whichever strategy
/// was asked.
pub proof fn lemma_sample_rel_zero(a: Seq<bool>, b: Seq<bool>, w: nat, h: nat, s: SampleStrategy)
    requires
        sample_rel(a, b, w, h, 0, s),
    ensures
        b == a,
{
    match s {
        SampleStrategy::RandomPoints => {
            let dr = choose|dr: Seq<(int, int)>|
                dr.len() == 0 && point_draws_ok(w, h, dr) && b == apply_point_draws(a, h, dr);
            assert(apply_point_draws(a, h, dr) == a);
        },
        SampleStrategy::Box { width, height } => {
            let dr = choose|dr: Seq<(int, int)>|
                dr.len() == 0 && tile_draws_ok(w, h, width as nat, height as nat, dr) && b
                    == apply_tile_draws(a, h, width as nat, height as nat, dr);
            assert(apply_tile_draws(a, h, width as nat, height as nat, dr) == a);
        },
    }
}

/// A tile whose block index is below the number of blocks lies inside the
/// extent.
pub proof fn lemma_tile_fits(b: int, s: int, ext: int)
    requires
        0 <= b,
        1 <= s,
        b < ext / s,
        ext % s == 0,
        0 <= ext,
    ensures
        0 <= b * s,
        b * s + s <= ext,
{
    vstd::arithmetic::div_mod::lemma_fundamental_div_mod(ext, s);
    assert(b * s + s <= ext) by (nonlinear_arith)
        requires
            b + 1 <= ext / s,
            ext == s * (ext / s) + ext % s,
            ext % s == 0,
            1 <= s,
            0 <= b,
    ;
    assert(0 <= b * s) by (nonlinear_arith)
        requires
            0 <= b,
            0 <= s,
    ;
}

/// A fresh grid holds no observation: every cell of an all-false bit
/// sequence is clear, so its count is zero.
pub proof fn lemma_empty_grid_count(len: nat)
    ensures
        count_trues(all_false(len)) == 0,
{
    lemma_count_zero(all_false(len));
}

/// One point draw on an empty grid of nonempty extent observes exactly
/// one cell: a single draw cannot collide with itself.
pub proof fn lemma_single_point_draw_count(w: nat, h: nat, dr: Seq<(int, int)>)
    requires
        1 <= w,
        1 <= h,
        dr.len() == 1,
        point_draws_ok(w, h, dr),
    ensures
        count_trues(apply_point_draws(all_false(w * h), h, dr)) == 1,
{
    let v0 = all_false(w * h);
    let d = dr.last();
    assert(dr.drop_last() =~= Seq::<(int, int)>::empty());
    assert(apply_point_draws(v0, h, Seq::<(int, int)>::empty()) == v0);
    assert(0 <= d.0 < h && 0 <= d.1 < w);
    lemma_coord_in_bounds(d.0, d.1, w as int, h as int);
    lemma_count_update(v0, d.0 + d.1 * h, true);
    lemma_count_zero(v0);
}

proof fn lemma_single_tile_sum(w: nat, h: nat, bw: nat, bh: nat, d: (int, int), j: int)
    requires
        1 <= bw <= w,
        1 <= bh <= h,
        w % bw == 0,
        h % bh == 0,
        0 <= d.0 < h / bh,
        0 <= d.1 < w / bw,
        0 <= j <= w,
    ensures
        sum_col_counts(apply_tile(all_false(w * h), h, bw, bh, d), h, j) == (if j <= d.1 * bw {
            0int
        } else if j <= d.1 * bw + bw {
            (j - d.1 * bw) * (bh as int)
        } else {
            (bw as int) * (bh as int)
        }),
    decreases j,
{
    let v = apply_tile(all_false(w * h), h, bw, bh, d);
    let c0 = d.1 * bw;
    lemma_tile_fits(d.0, bh as int, h as int);
    lemma_tile_fits(d.1, bw as int, w as int);
    if j > 0 {
        lemma_single_tile_sum(w, h, bw, bh, d, j - 1);
        lemma_succ_mul(j - 1, h as int);
        lemma_mul_le(0, j - 1, h as int);
        lemma_mul_le(j, w as int, h as int);
        let cs = col_seq(v, h, j - 1);
        assert(cs.len() == h);
        assert forall|i: int| 0 <= i < cs.len() implies cs[i] == in_tile(bw, bh, d, i, j - 1) by {
            lemma_coord_in_bounds(i, j - 1, w as int, h as int);
            lemma_lin_decompose(i, j - 1, h as int);
        }
        if c0 <= j - 1 < c0 + bw {
            lemma_count_range(cs, d.0 * bh, d.0 * bh + bh);
            if j - 1 == c0 {
                assert((j - c0) * (bh as int) == bh as int) by (nonlinear_arith)
                    requires
                        j == c0 + 1,
                ;
            } else {
                lemma_succ_mul(j - 1 - c0, bh as int);
            }
        } else {
            lemma_count_zero(cs);
        }
    }
}

/// One tile draw on an empty, evenly tiled grid observes exactly
/// `bw * bh` cells: the drawn tile, whichever it was.
pub proof fn lemma_single_tile_draw_count(w: nat, h: nat, bw: nat, bh: nat, dr: Seq<(int, int)>)
    requires
        1 <= bw <= w,
        1 <= bh <= h,
        w % bw == 0,
        h % bh == 0,
        dr.len() == 1,
        tile_draws_ok(w, h, bw, bh, dr),
    ensures
        count_trues(apply_tile_draws(all_false(w * h), h, bw, bh, dr)) == bw * bh,
{
    let v0 = all_false(w * h);
    let d = dr.last();
    assert(dr.drop_last() =~= Seq::<(int, int)>::empty());
    assert(apply_tile_draws(v0, h, bw, bh, Seq::<(int, int)>::empty()) == v0);
    assert(0 <= d.0 < h / bh && 0 <= d.1 < w / bw);
    let v = apply_tile(v0, h, bw, bh, d);
    lemma_count_by_cols(v, w, h);
    lemma_single_tile_sum(w, h, bw, bh, d, w as int);
    lemma_tile_fits(d.1, bw as int, w as int);
}

/// Policy choosing which coordinates one sampling draw marks observed.
#[derive(Debug, Clone)]
pub enum SampleStrategy {
    /// The grid is tiled by `width x height` boxes (both must divide the
    /// extent evenly); one draw marks every cell of one uniformly chosen
    /// tile.
    Box { width: usize, height: usize },
    /// One draw marks one uniformly chosen cell.
    RandomPoints,
}

/// Dense `w x h` boolean matrix backed by packed bits.
pub struct Grid {
    pub bv: PackedBits,
    pub w: usize,
    pub h: usize,
}

impl Grid {
    /// The storage holds exactly one bit per cell. The cell count stays
    /// below 2^32: the storage's bit counting accumulates in 32 bits, so
    /// larger grids could not be counted exactly.
    pub open spec fn wf(self) -> bool {
        &&& bits_of(self.bv).len() == self.w * self.h
        &&& self.w * self.h < 0x1_0000_0000
        &&& self.w * self.h <= usize::MAX
    }

    /// The packed bit sequence, column-major.
    pub open spec fn bits(self) -> Seq<bool> {
        bits_of(self.bv)
    }

    /// Cell `(i, j)` of the grid.
    pub open spec fn cell(self, i: int, j: int) -> bool {
        cell_of(self.bits(), self.h as nat, i, j)
    }

    /// All-false grid of the given extent: no cell observed, count zero.
    pub fn new(w: usize, h: usize) -> (g: Grid)
        requires
            w * h < 0x1_0000_0000,
        ensures
            g.wf(),
            g.w == w,
            g.h == h,
            g.bits() == all_false((w * h) as nat),
            count_trues(g.bits()) == 0,
    {
        let n = w * h;
        let g = Grid { w, h, bv: bv_zeros(n) };
        proof {
            lemma_count_zero(g.bits());
        }
        g
    }

    pub fn w(&self) -> (r: usize)
        ensures
            r == self.w,
    {
        self.w
    }

    pub fn h(&self) -> (r: usize)
        ensures
            r == self.h,
    {
        self.h
    }

    /// Linear index of coordinate `(row, col)`. The bound `row + col * h
    /// <= w * h` admits the one-past-the-end column boundary used by
    /// prefix counting.
    pub fn coord_to_ind(&self, row: usize, col: usize) -> (r: usize)
        requires
            self.wf(),
            col <= self.w,
            row + col * self.h <= self.w * self.h,
        ensures
            r == row + col * self.h,
    {
        proof {
            lemma_mul_le(col as int, self.w as int, self.h as int);
        }
        row + col * self.h
    }

    pub fn set(&mut self, row: usize, col: usize, value: bool)
        requires
            old(self).wf(),
            row < old(self).h,
            col < old(self).w,
        ensures
            final(self).wf(),
            final(self).w == old(self).w,
            final(self).h == old(self).h,
            final(self).bits() == old(self).bits().update(
                row + col * old(self).h,
                value,
            ),
    {
        proof {
            lemma_coord_in_bounds(row as int, col as int, self.w as int, self.h as int);
        }
        let i = self.coord_to_ind(row, col);
        bv_set(&mut self.bv, i, value);
    }

    pub fn get(&self, row: usize, col: usize) -> (r: bool)
        requires
            self.wf(),
            row < self.h,
            col < self.w,
        ensures
            r == self.cell(row as int, col as int),
    {
        proof {
            lemma_coord_in_bounds(row as int, col as int, self.w as int, self.h as int);
        }
        let i = self.coord_to_ind(row, col);
        bv_get(&self.bv, i)
    }

    /// Total set-bit count.
    pub fn count_ones(&self) -> (r: usize)
        requires
            self.wf(),
        ensures
            r == count_trues(self.bits()),
    {
        bv_count_ones(&self.bv)
    }

    /// Set-bit count of column `col`, as a prefix-count difference between
    /// the column's boundaries.
    pub fn count_columnar(&self, col: usize) -> (r: usize)
        requires
            self.wf(),
            col < self.w,
        ensures
            r == col_count(self.bits(), self.h as nat, col as int),
    {
        proof {
            lemma_mul_le(col as int, self.w as int, self.h as int);
            lemma_mul_le(col + 1 as int, self.w as int, self.h as int);
            assert((col + 1) * self.h == col * self.h + self.h) by (nonlinear_arith);
        }
        let start_ind = self.coord_to_ind(0, col);
        let end_ind = self.coord_to_ind(0, col + 1);
        let full = bv_count_ones_before(&self.bv, end_ind);
        let head = bv_count_ones_before(&self.bv, start_ind);
        proof {
            let v = self.bits();
            assert(v.take(end_ind as int) =~= v.subrange(0, end_ind as int));
            assert(v.take(start_ind as int) =~= v.subrange(0, start_ind as int));
            lemma_count_subrange_split(v, 0, start_ind as int, end_ind as int);
            lemma_count_le_len(v.subrange(0, start_ind as int));
        }
        full - head
    }

    /// Per-column and per-row set-bit totals, via a single full scan.
    pub fn col_row_counts(&self) -> (r: (Vec<usize>, Vec<usize>))
        requires
            self.wf(),
        ensures
            r.0@.len() == self.w,
            r.1@.len() == self.h,
            forall|j: int|
                0 <= j < self.w ==> r.0@[j] == col_count(self.bits(), self.h as nat, j),
            forall|i: int|
                0 <= i < self.h ==> r.1@[i] == row_count(
                    self.bits(),
                    self.w as nat,
                    self.h as nat,
                    i,
                ),
    {
        let ghost v = self.bits();
        let w = self.w;
        let h = self.h;
        let mut col_counts: Vec<usize> = Vec::new();
        let mut row_counts: Vec<usize> = Vec::new();
        for k in 0..w
            invariant
                col_counts@.len() == k,
                forall|t: int| 0 <= t < k ==> col_counts@[t] == 0,
        {
            col_counts.push(0);
        }
        for k in 0..h
            invariant
                row_counts@.len() == k,
                forall|t: int| 0 <= t < k ==> row_counts@[t] == 0,
        {
            row_counts.push(0);
        }
        proof {
            assert forall|t: int| 0 <= t < w implies col_counts@[t] == count_trues(
                v.subrange(t * h, t * h + 0),
            ) by {
                lemma_mul_le(0, t, h as int);
                lemma_mul_le(t, w as int, h as int);
                assert(v.subrange(t * h, t * h) =~= Seq::<bool>::empty());
            }
        }
        for i in 0..h
            invariant
                self.wf(),
                v == self.bits(),
                w == self.w,
                h == self.h,
                col_counts@.len() == w,
                row_counts@.len() == h,
                forall|t: int|
                    0 <= t < w ==> col_counts@[t] == count_trues(v.subrange(t * h, t * h + i)),
                forall|t: int|
                    0 <= t < i ==> row_counts@[t] == row_count(v, w as nat, h as nat, t),
                forall|t: int| i <= t < h ==> row_counts@[t] == 0,
        {
            for j in 0..w
                invariant
                    self.wf(),
                    v == self.bits(),
                    w == self.w,
                    h == self.h,
                    i < h,
                    col_counts@.len() == w,
                    row_counts@.len() == h,
                    forall|t: int|
                        0 <= t < j ==> col_counts@[t] == count_trues(
                            v.subrange(t * h, t * h + i + 1),
                        ),
                    forall|t: int|
                        j <= t < w ==> col_counts@[t] == count_trues(v.subrange(t * h, t * h + i)),
                    forall|t: int|
                        0 <= t < i ==> row_counts@[t] == row_count(v, w as nat, h as nat, t),
                    forall|t: int| i < t < h ==> row_counts@[t] == 0,
                    row_counts@[i as int] == count_trues(
                        row_seq(v, w as nat, h as nat, i as int).take(j as int),
                    ),
            {
                proof {
                    lemma_coord_in_bounds(i as int, j as int, w as int, h as int);
                    lemma_succ_mul(j as int, h as int);
                    lemma_mul_le(j + 1 as int, w as int, h as int);
                    lemma_count_subrange_step(v, j * h, j * h + i);
                    lemma_count_le_len(v.subrange(j * h, j * h + (i as int)));
                    lemma_count_take_step(row_seq(v, w as nat, h as nat, i as int), j as int);
                    lemma_count_le_len(row_seq(v, w as nat, h as nat, i as int).take(j as int));
                    assert(row_seq(v, w as nat, h as nat, i as int)[j as int] == cell_of(
                        v,
                        h as nat,
                        i as int,
                        j as int,
                    ));
                    assert(v[(j as int) * h + i] == cell_of(v, h as nat, i as int, j as int));
                }
                if self.get(i, j) {
                    let rc = row_counts[i];
                    row_counts[i] = rc + 1;
                    let cc = col_counts[j];
                    col_counts[j] = cc + 1;
                }
            }
            proof {
                let rs = row_seq(v, w as nat, h as nat, i as int);
                assert(rs.take(w as int) =~= rs);
            }
        }
        proof {
            assert forall|t: int| 0 <= t < w implies col_counts@[t] == col_count(
                v,
                h as nat,
                t,
            ) by {
                lemma_succ_mul(t, h as int);
                assert(v.subrange(t * h, t * h + (h as int)) =~= col_seq(v, h as nat, t));
            }
        }
        (col_counts, row_counts)
    }

    /// Build a grid from a row-major boolean array (rows of `bools` are
    /// grid rows).
    pub fn from_bool_grid<const W: usize, const H: usize>(bools: [[bool; W]; H]) -> (g: Grid)
        requires
            W * H < 0x1_0000_0000,
        ensures
            g.wf(),
            g.w == W,
            g.h == H,
            forall|i: int, j: int|
                0 <= i < H && 0 <= j < W ==> #[trigger] g.cell(i, j) == bools@[i]@[j],
    {
        let mut grid = Grid::new(W, H);
        proof {
            assert forall|a: int, b: int| 0 <= a < H && 0 <= b < W implies #[trigger] cell_of(
                grid.bits(),
                H as nat,
                a,
                b,
            ) == false by {
                lemma_coord_in_bounds(a, b, W as int, H as int);
            }
        }
        for i in 0..H
            invariant
                grid.wf(),
                grid.w == W,
                grid.h == H,
                forall|a: int, b: int|
                    0 <= a < H && 0 <= b < W ==> #[trigger] cell_of(grid.bits(), H as nat, a, b)
                        == (if a < i {
                        bools@[a]@[b]
                    } else {
                        false
                    }),
        {
            for j in 0..W
                invariant
                    grid.wf(),
                    grid.w == W,
                    grid.h == H,
                    i < H,
                    forall|a: int, b: int|
                        0 <= a < H && 0 <= b < W ==> #[trigger] cell_of(grid.bits(), H as nat, a, b)
                            == (if a < i || (a == i && b < j) {
                            bools@[a]@[b]
                        } else {
                            false
                        }),
            {
                let ghost before = grid.bits();
                let row = bools[i];
                grid.set(i, j, row[j]);
                proof {
                    assert forall|a: int, b: int|
                        0 <= a < H && 0 <= b < W implies #[trigger] cell_of(
                        grid.bits(),
                        H as nat,
                        a,
                        b,
                    ) == (if a < i || (a == i && b < j + 1) {
                        bools@[a]@[b]
                    } else {
                        false
                    }) by {
                        lemma_coord_in_bounds(a, b, W as int, H as int);
                        lemma_coord_in_bounds(i as int, j as int, W as int, H as int);
                        if a + b * H == i + j * H {
                            lemma_coord_injective(a, b, i as int, j as int, W as int, H as int);
                        } else {
                            assert(cell_of(grid.bits(), H as nat, a, b) == cell_of(
                                before,
                                H as nat,
                                a,
                                b,
                            ));
                        }
                    }
                }
            }
        }
        grid
    }

    /// Draw `amount` independent cells or tiles per the strategy and mark
    /// them observed. The draws come from the randomness source, so the
    /// contract holds for every possible draw sequence.
    pub fn sample(
        &mut self,
        rng: &mut rand::rngs::SmallRng,
        amount: usize,
        strategy: &SampleStrategy,
    )
        requires
            old(self).wf(),
            strategy_ok(*strategy, old(self).w as nat, old(self).h as nat),
        ensures
            final(self).wf(),
            final(self).w == old(self).w,
            final(self).h == old(self).h,
            sample_rel(
                old(self).bits(),
                final(self).bits(),
                old(self).w as nat,
                old(self).h as nat,
                amount as nat,
                *strategy,
            ),
    {
        let ghost orig = self.bits();
        let ghost w0 = self.w;
        let ghost h0 = self.h;
        match strategy {
            SampleStrategy::Box { width, height } => {
                let bw: usize = *width;
                let bh: usize = *height;
                let row_splits = self.w / bw;
                let col_splits = self.h / bh;
                proof {
                    vstd::arithmetic::div_mod::lemma_div_non_zero(w0 as int, bw as int);
                    vstd::arithmetic::div_mod::lemma_div_non_zero(h0 as int, bh as int);
                }
                let ghost mut draws: Seq<(int, int)> = Seq::empty();
                for it in 0..amount
                    invariant
                        self.wf(),
                        self.w == w0,
                        self.h == h0,
                        1 <= bw <= w0,
                        1 <= bh <= h0,
                        w0 as int % bw as int == 0,
                        h0 as int % bh as int == 0,
                        row_splits == w0 as int / bw as int,
                        col_splits == h0 as int / bh as int,
                        1 <= row_splits,
                        1 <= col_splits,
                        draws.len() == it,
                        tile_draws_ok(w0 as nat, h0 as nat, bw as nat, bh as nat, draws),
                        self.bits() == apply_tile_draws(orig, h0 as nat, bw as nat, bh as nat, draws),
                {
                    let box_i = rand_below(rng, col_splits);
                    let box_j = rand_below(rng, row_splits);
                    proof {
                        lemma_tile_fits(box_i as int, bh as int, h0 as int);
                        lemma_tile_fits(box_j as int, bw as int, w0 as int);
                    }
                    let start_i = box_i * bh;
                    let start_j = box_j * bw;
                    let end_i = start_i + bh;
                    let end_j = start_j + bw;
                    let ghost prev = self.bits();
                    for i in start_i..end_i
                        invariant
                            self.wf(),
                            self.w == w0,
                            self.h == h0,
                            start_i == box_i * bh,
                            start_j == box_j * bw,
                            end_i == start_i + bh,
                            end_j == start_j + bw,
                            end_i <= h0,
                            end_j <= w0,
                            1 <= bw,
                            1 <= bh,
                            prev.len() == w0 * h0,
                            forall|a: int, b: int|
                                0 <= a < h0 && 0 <= b < w0 ==> #[trigger] cell_of(
                                    self.bits(),
                                    h0 as nat,
                                    a,
                                    b,
                                ) == (cell_of(prev, h0 as nat, a, b) || (start_i <= a < i
                                    && start_j <= b < end_j)),
                    {
                        for j in start_j..end_j
                            invariant
                                self.wf(),
                                self.w == w0,
                                self.h == h0,
                                start_i <= i < end_i,
                                start_i == box_i * bh,
                                start_j == box_j * bw,
                                end_i == start_i + bh,
                                end_j == start_j + bw,
                                end_i <= h0,
                                end_j <= w0,
                                1 <= bw,
                                1 <= bh,
                                prev.len() == w0 * h0,
                                forall|a: int, b: int|
                                    0 <= a < h0 && 0 <= b < w0 ==> #[trigger] cell_of(
                                        self.bits(),
                                        h0 as nat,
                                        a,
                                        b,
                                    ) == (cell_of(prev, h0 as nat, a, b) || (start_i <= a < i
                                        && start_j <= b < end_j) || (a == i && start_j <= b < j)),
                        {
                            let ghost before = self.bits();
                            self.set(i, j, true);
                            proof {
                                assert forall|a: int, b: int|
                                    0 <= a < h0 && 0 <= b < w0 implies #[trigger] cell_of(
                                    self.bits(),
                                    h0 as nat,
                                    a,
                                    b,
                                ) == (cell_of(prev, h0 as nat, a, b) || (start_i <= a < i
                                    && start_j <= b < end_j) || (a == i && start_j <= b < j + 1)) by {
                                    lemma_coord_in_bounds(a, b, w0 as int, h0 as int);
                                    lemma_coord_in_bounds(i as int, j as int, w0 as int, h0 as int);
                                    if a + b * h0 == i + j * h0 {
                                        lemma_coord_injective(
                                            a,
                                            b,
                                            i as int,
                                            j as int,
                                            w0 as int,
                                            h0 as int,
                                        );
                                    } else {
                                        assert(cell_of(self.bits(), h0 as nat, a, b) == cell_of(
                                            before,
                                            h0 as nat,
                                            a,
                                            b,
                                        ));
                                    }
                                }
                            }
                        }
                        proof {
                            assert forall|a: int, b: int|
                                0 <= a < h0 && 0 <= b < w0 implies #[trigger] cell_of(
                                self.bits(),
                                h0 as nat,
                                a,
                                b,
                            ) == (cell_of(prev, h0 as nat, a, b) || (start_i <= a < i + 1
                                && start_j <= b < end_j)) by {}
                        }
                    }
                    proof {
                        let d = (box_i as int, box_j as int);
                        let tl = apply_tile(prev, h0 as nat, bw as nat, bh as nat, d);
                        assert(tl.len() == prev.len());
                        assert forall|a: int, b: int|
                            0 <= a < h0 && 0 <= b < w0 implies #[trigger] cell_of(
                            self.bits(),
                            h0 as nat,
                            a,
                            b,
                        ) == cell_of(tl, h0 as nat, a, b) by {
                            lemma_coord_in_bounds(a, b, w0 as int, h0 as int);
                            lemma_lin_decompose(a, b, h0 as int);
                            assert(tl[a + b * h0] == (prev[a + b * h0] || in_tile(
                                bw as nat,
                                bh as nat,
                                d,
                                a,
                                b,
                            )));
                        }
                        lemma_bits_eq_by_cells(self.bits(), tl, w0 as nat, h0 as nat);
                        let ghost dprev = draws;
                        draws = draws.push(d);
                        assert(draws.drop_last() =~= dprev);
                        assert(self.bits() == apply_tile_draws(
                            orig,
                            h0 as nat,
                            bw as nat,
                            bh as nat,
                            draws,
                        ));
                    }
                }
            },
            SampleStrategy::RandomPoints => {
                let ghost mut draws: Seq<(int, int)> = Seq::empty();
                for it in 0..amount
                    invariant
                        self.wf(),
                        self.w == w0,
                        self.h == h0,
                        1 <= w0,
                        1 <= h0,
                        draws.len() == it,
                        point_draws_ok(w0 as nat, h0 as nat, draws),
                        self.bits() == apply_point_draws(orig, h0 as nat, draws),
                {
                    let row = rand_below(rng, self.h);
                    let col = rand_below(rng, self.w);
                    self.set(row, col, true);
                    proof {
                        let ghost dprev = draws;
                        draws = draws.push((row as int, col as int));
                        assert(draws.drop_last() =~= dprev);
                    }
                }
            },
        }
    }

    /// Pointwise conjunction with a same-extent mask.
    pub fn and_inplace(&mut self, mask: &Grid)
        requires
            old(self).wf(),
            mask.wf(),
            old(self).w == mask.w,
            old(self).h == mask.h,
        ensures
            final(self).wf(),
            final(self).w == old(self).w,
            final(self).h == old(self).h,
            final(self).bits() == and_bits(old(self).bits(), mask.bits()),
    {
        bv_and_inplace(&mut self.bv, &mask.bv);
    }

    /// Pointwise complement, consuming the grid. Taken cell by cell: the
    /// storage crate's bitwise inverse leaves stray set bits past the end
    /// for some lengths, which would corrupt later counts and comparisons.
    pub fn not(self) -> (r: Grid)
        requires
            self.wf(),
        ensures
            r.wf(),
            r.w == self.w,
            r.h == self.h,
            r.bits() == not_bits(self.bits()),
    {
        let mut g = self;
        let w = g.w;
        let h = g.h;
        let ghost v0 = g.bits();
        for j in 0..w
            invariant
                g.wf(),
                g.w == w,
                g.h == h,
                v0.len() == w * h,
                forall|a: int, b: int|
                    0 <= a < h && 0 <= b < w ==> #[trigger] cell_of(g.bits(), h as nat, a, b) == (
                    if b < j {
                        !cell_of(v0, h as nat, a, b)
                    } else {
                        cell_of(v0, h as nat, a, b)
                    }),
        {
            for i in 0..h
                invariant
                    g.wf(),
                    g.w == w,
                    g.h == h,
                    j < w,
                    v0.len() == w * h,
                    forall|a: int, b: int|
                        0 <= a < h && 0 <= b < w ==> #[trigger] cell_of(g.bits(), h as nat, a, b)
                            == (if b < j || (b == j && a < i) {
                            !cell_of(v0, h as nat, a, b)
                        } else {
                            cell_of(v0, h as nat, a, b)
                        }),
            {
                let ghost before = g.bits();
                let cur = g.get(i, j);
                g.set(i, j, !cur);
                proof {
                    assert forall|a: int, b: int|
                        0 <= a < h && 0 <= b < w implies #[trigger] cell_of(
                        g.bits(),
                        h as nat,
                        a,
                        b,
                    ) == (if b < j || (b == j && a < i + 1) {
                        !cell_of(v0, h as nat, a, b)
                    } else {
                        cell_of(v0, h as nat, a, b)
                    }) by {
                        lemma_coord_in_bounds(a, b, w as int, h as int);
                        lemma_coord_in_bounds(i as int, j as int, w as int, h as int);
                        if a + b * h == i + j * h {
                            lemma_coord_injective(a, b, i as int, j as int, w as int, h as int);
                        } else {
                            assert(cell_of(g.bits(), h as nat, a, b) == cell_of(
                                before,
                                h as nat,
                                a,
                                b,
                            ));
                        }
                    }
                }
            }
        }
        proof {
            let nb = not_bits(v0);
            if h == 0 {
                assert((w as int) * (h as int) == 0) by (nonlinear_arith)
                    requires
                        h == 0,
                ;
                assert(g.bits() =~= nb);
            } else {
                assert forall|a: int, b: int| 0 <= a < h && 0 <= b < w implies #[trigger] cell_of(
                    g.bits(),
                    h as nat,
                    a,
                    b,
                ) == cell_of(nb, h as nat, a, b) by {
                    lemma_coord_in_bounds(a, b, w as int, h as int);
                }
                lemma_bits_eq_by_cells(g.bits(), nb, w as nat, h as nat);
            }
        }
        g
    }

    /// Pointwise disjunction of two same-extent grids, consuming both:
    /// the union of two sets of observations.
    pub fn bitor(self, rhs: Grid) -> (r: Grid)
        requires
            self.wf(),
            rhs.wf(),
            self.w == rhs.w,
            self.h == rhs.h,
        ensures
            r.wf(),
            r.w == self.w,
            r.h == self.h,
            r.bits() == or_bits(self.bits(), rhs.bits()),
    {
        Grid { w: self.w, h: self.h, bv: bv_or(self.bv, rhs.bv) }
    }
}

impl Clone for Grid {
    fn clone(&self) -> (r: Self)
        ensures
            r.w == self.w,
            r.h == self.h,
            r.bits() == self.bits(),
    {
        Grid { w: self.w, h: self.h, bv: bv_clone(&self.bv) }
    }
}

impl PartialEq for Grid {
    fn eq(&self, other: &Grid) -> bool {
        self.w == other.w && self.h == other.h && bv_len(&self.bv) == bv_len(&other.bv) && bv_eq(
            &self.bv,
            &other.bv,
        )
    }
}

impl vstd::std_specs::cmp::PartialEqSpecImpl for Grid {
    open spec fn obeys_eq_spec() -> bool {
        true
    }

    open spec fn eq_spec(&self, other: &Grid) -> bool {
        self.w == other.w && self.h == other.h && bits_of(self.bv) == bits_of(other.bv)
    }
}

} // verus!
