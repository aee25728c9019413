//! The shared operation set of the reconstruction schemes: create an empty
//! scheme grid, build a censorship mask with its target, sample with or
//! without censorship, merge two views, and test reconstructability.
use crate::base_grid::{sample_rel, strategy_ok, Grid, SampleStrategy};
use crate::bitspec::{all_false, and_bits, count_trues, not_bits, or_bits};
use vstd::prelude::*;

verus! {

/// A grid layout with erasure-reconstruction semantics, wrapping a
/// `Grid` of the extent its scheme size `n` derives.
pub trait Reconstructable: Sized {
    /// Scheme invariant: the grid has the extent derived from `n`.
    spec fn wf(&self) -> bool;

    /// The logical dataset size `n`.
    spec fn scheme_size(&self) -> nat;

    /// The observation bits, column-major over the scheme's extent.
    spec fn bits(&self) -> Seq<bool>;

    /// Grid width derived from `n`.
    spec fn extent_w(n: nat) -> nat;

    /// Grid height derived from `n`.
    spec fn extent_h(n: nat) -> nat;

    /// How many cells the scheme's censorship mask blocks before
    /// complementing.
    spec fn blocked_count(n: nat) -> nat;

    /// The allowed-cell mask for target `(row, col)`: the complement of
    /// the scheme's blocked set.
    spec fn mask_bits(n: nat, row: int, col: int) -> Seq<bool>;

    /// When observations `v` let the target cell be reconstructed.
    spec fn can_reconstruct_spec(v: Seq<bool>, n: nat, i: (usize, usize)) -> bool;

    /// The scheme's dimensionality label.
    spec fn spec_dims() -> nat;

    fn dims() -> (d: usize)
        ensures
            d as nat == Self::spec_dims(),
    ;

    /// Empty scheme grid of logical size `n`.
    fn new(n: usize) -> (s: Self)
        requires
            1 <= n,
            Self::extent_w(n as nat) * Self::extent_h(n as nat) < 0x1_0000_0000,
        ensures
            s.wf(),
            s.scheme_size() == n as nat,
            s.bits() == all_false(Self::extent_w(n as nat) * Self::extent_h(n as nat)),
    ;

    fn grid_size(&self) -> (r: usize)
        ensures
            r as nat == self.scheme_size(),
    ;

    /// Build the one-time censorship mask and target for a configuration:
    /// the target is drawn uniformly from the primary region, the scheme's
    /// blocked set around it is censored, and the complement (what a
    /// censored observer may still see) is returned with the target.
    /// The blocked set's cardinality is exactly `blocked_count(n)`.
    fn new_mask(rng: &mut rand::rngs::SmallRng, n: usize) -> (r: (Grid, (usize, usize)))
        requires
            1 <= n,
            Self::extent_w(n as nat) * Self::extent_h(n as nat) < 0x1_0000_0000,
        ensures
            r.0.wf(),
            r.0.w as nat == Self::extent_w(n as nat),
            r.0.h as nat == Self::extent_h(n as nat),
            r.1.0 < n,
            r.1.1 < n,
            (r.1.0 as nat) < Self::extent_h(n as nat),
            (r.1.1 as nat) < Self::extent_w(n as nat),
            r.0.bits() == Self::mask_bits(n as nat, r.1.0 as int, r.1.1 as int),
            count_trues(not_bits(r.0.bits())) == Self::blocked_count(n as nat),
    ;

    /// Reconstructability of the cell `i`, read-only.
    fn can_reconstruct(&self, i: (usize, usize)) -> (r: bool)
        requires
            self.wf(),
            (i.0 as nat) < Self::extent_h(self.scheme_size()),
            (i.1 as nat) < Self::extent_w(self.scheme_size()),
        ensures
            r == Self::can_reconstruct_spec(self.bits(), self.scheme_size(), i),
    ;

    /// Mark `amount` draws observed, per the strategy.
    fn sample(
        &mut self,
        rng: &mut rand::rngs::SmallRng,
        amount: usize,
        strategy: &SampleStrategy,
    )
        requires
            old(self).wf(),
            strategy_ok(
                *strategy,
                Self::extent_w(old(self).scheme_size()),
                Self::extent_h(old(self).scheme_size()),
            ),
        ensures
            final(self).wf(),
            final(self).scheme_size() == old(self).scheme_size(),
            sample_rel(
                old(self).bits(),
                final(self).bits(),
                Self::extent_w(old(self).scheme_size()),
                Self::extent_h(old(self).scheme_size()),
                amount as nat,
                *strategy,
            ),
    ;

    /// Like `sample`, then drop the censored observations: the result is
    /// the sampled view intersected with the allowed mask.
    fn sample_exclusion(
        &mut self,
        rng: &mut rand::rngs::SmallRng,
        amount: usize,
        strategy: &SampleStrategy,
        mask: &Grid,
    )
        requires
            old(self).wf(),
            mask.wf(),
            mask.w as nat == Self::extent_w(old(self).scheme_size()),
            mask.h as nat == Self::extent_h(old(self).scheme_size()),
            strategy_ok(
                *strategy,
                Self::extent_w(old(self).scheme_size()),
                Self::extent_h(old(self).scheme_size()),
            ),
        ensures
            final(self).wf(),
            final(self).scheme_size() == old(self).scheme_size(),
            exists|mid: Seq<bool>|
                sample_rel(
                    old(self).bits(),
                    mid,
                    Self::extent_w(old(self).scheme_size()),
                    Self::extent_h(old(self).scheme_size()),
                    amount as nat,
                    *strategy,
                ) && final(self).bits() == and_bits(mid, mask.bits()),
    ;

    /// A grid with no observation reconstructs nothing: whatever in-range
    /// target is asked about, the all-false view fails the scheme's
    /// reconstruction predicate. This pins the degenerate simulation case
    /// (no clients, or no samples per client) to probability zero.
    proof fn lemma_empty_never_reconstructs(n: nat, i: (usize, usize))
        requires
            1 <= n,
            (i.0 as nat) < Self::extent_h(n),
            (i.1 as nat) < Self::extent_w(n),
        ensures
            !Self::can_reconstruct_spec(all_false(Self::extent_w(n) * Self::extent_h(n)), n, i),
    ;

    /// Union of two independently sampled views of the same scheme size,
    /// consuming both.
    fn merge(self, other: Self) -> (r: Self)
        requires
            self.wf(),
            other.wf(),
            self.scheme_size() == other.scheme_size(),
        ensures
            r.wf(),
            r.scheme_size() == self.scheme_size(),
            r.bits() == or_bits(self.bits(), other.bits()),
    ;
}

} // verus!
