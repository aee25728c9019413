//! Monte-Carlo estimation of the probability that a target cell of an
//! erasure-coded sampling grid can be reconstructed when a fraction of the
//! sampling population is censored. The core is the bit-packed grid, the
//! two sampling policies, the per-scheme censorship mask, the per-scheme
//! reconstruction test, and the trial loop; sweep generation, parallel
//! dispatch and result serialization live outside the library.
pub mod base_grid;
pub mod bitspec;
pub mod bitstore;
pub mod grid1d;
pub mod grid2d;
pub mod rng;
pub mod traits;

pub use base_grid::SampleStrategy;

use base_grid::{lemma_mul_le, lemma_sample_rel_zero, sample_rel, strategy_ok};
use bitspec::{all_false, and_bits};
use grid1d::Grid1dErasure;
use grid2d::Grid2dErasure;
use rng::fresh_rng;
use traits::Reconstructable;
use vstd::prelude::*;

verus! {

/// Number of Monte-Carlo trials per configuration.
pub const N_EXPERIMENTS: usize = 500;

/// One experiment configuration. `n_censored` of the `n_clients`
/// participants have their masked requests dropped; every client makes
/// `n_samples` draws per the strategy.
pub struct ExperimentConfig {
    pub n: usize,
    pub dims: usize,
    pub n_clients: usize,
    pub n_censored: usize,
    pub n_samples: usize,
    pub sample_strategy: SampleStrategy,
}

impl ExperimentConfig {
    /// What a configuration asks of scheme `R`: a positive scheme size
    /// whose extent fits the address space, a strategy that tiles the
    /// extent, no more censored clients than clients, and a per-trial
    /// draw total that fits a `usize`.
    pub open spec fn wf_for<R: Reconstructable>(self) -> bool {
        &&& 1 <= self.n
        &&& self.n_censored <= self.n_clients
        &&& self.n_samples * self.n_clients <= usize::MAX
        &&& R::extent_w(self.n as nat) * R::extent_h(self.n as nat) < 0x1_0000_0000
        &&& strategy_ok(
            self.sample_strategy,
            R::extent_w(self.n as nat),
            R::extent_h(self.n as nat),
        )
    }

    /// A runnable configuration: a supported dimensionality, well-formed
    /// for the scheme it selects.
    pub open spec fn wf(self) -> bool {
        &&& (self.dims == 1 || self.dims == 2)
        &&& (self.dims == 1 ==> self.wf_for::<Grid1dErasure>())
        &&& (self.dims == 2 ==> self.wf_for::<Grid2dErasure>())
    }

    /// Run the configuration's trials on the scheme its dimensionality
    /// selects. Returns how many of the `N_EXPERIMENTS` trials could
    /// reconstruct the target; the estimated probability is that count
    /// over `N_EXPERIMENTS`, so it always lies in `[0, 1]`. The degenerate
    /// configuration with no clients, or no samples per client, draws
    /// nothing and never reconstructs: the estimate is exactly zero.
    pub fn run(&self) -> (hits: usize)
        requires
            self.wf(),
        ensures
            hits <= N_EXPERIMENTS,
            self.n_samples == 0 || self.n_clients == 0 ==> hits == 0,
    {
        if self.dims == 1 {
            self.run_generic::<Grid1dErasure>()
        } else {
            self.run_generic::<Grid2dErasure>()
        }
    }

    /// The trial loop for one scheme. Each trial pools the censored
    /// clients' draws into one grid (intersected with the allowed mask)
    /// and the honest clients' draws into another, merges the two views,
    /// and scores whether the target reconstructs. With no clients or no
    /// samples per client every trial's views stay empty, so no trial
    /// scores and the count is zero.
    pub fn run_generic<R: Reconstructable>(&self) -> (hits: usize)
        requires
            self.wf_for::<R>(),
        ensures
            hits <= N_EXPERIMENTS,
            self.n_samples == 0 || self.n_clients == 0 ==> hits == 0,
    {
        let mut mask_rng = fresh_rng();
        let (mask, censor_target) = R::new_mask(&mut mask_rng, self.n);

        proof {
            lemma_mul_le(self.n_censored as int, self.n_clients as int, self.n_samples as int);
            lemma_mul_le(
                (self.n_clients - self.n_censored) as int,
                self.n_clients as int,
                self.n_samples as int,
            );
            vstd::arithmetic::mul::lemma_mul_is_commutative(
                self.n_censored as int,
                self.n_samples as int,
            );
            vstd::arithmetic::mul::lemma_mul_is_commutative(
                self.n_clients as int,
                self.n_samples as int,
            );
            vstd::arithmetic::mul::lemma_mul_is_commutative(
                (self.n_clients - self.n_censored) as int,
                self.n_samples as int,
            );
        }
        // n_censored clients make n_samples draws each, pooled; likewise
        // the honest remainder.
        let censor_amount = self.n_samples * self.n_censored;
        let honest_amount = self.n_samples * (self.n_clients - self.n_censored);
        proof {
            assert((self.n_samples == 0 || self.n_clients == 0) ==> (self.n_samples
                * self.n_censored == 0 && self.n_samples * (self.n_clients - self.n_censored)
                == 0)) by (nonlinear_arith)
                requires
                    self.n_censored <= self.n_clients,
            ;
        }

        let mut recon_count: usize = 0;
        for trial in 0..N_EXPERIMENTS
            invariant
                recon_count <= trial,
                self.wf_for::<R>(),
                mask.wf(),
                mask.w as nat == R::extent_w(self.n as nat),
                mask.h as nat == R::extent_h(self.n as nat),
                (censor_target.0 as nat) < R::extent_h(self.n as nat),
                (censor_target.1 as nat) < R::extent_w(self.n as nat),
                self.n_samples == 0 || self.n_clients == 0 ==> (censor_amount == 0
                    && honest_amount == 0 && recon_count == 0),
        {
            let mut rng = fresh_rng();
            let mut censor_grid = R::new(self.n);
            censor_grid.sample_exclusion(&mut rng, censor_amount, &self.sample_strategy, &mask);
            let mut honest_grid = R::new(self.n);
            honest_grid.sample(&mut rng, honest_amount, &self.sample_strategy);
            let ghost censor_bits = censor_grid.bits();
            let ghost honest_bits = honest_grid.bits();
            let res = censor_grid.merge(honest_grid);

            let recon = res.can_reconstruct(censor_target);
            proof {
                if self.n_samples == 0 || self.n_clients == 0 {
                    let ext = R::extent_w(self.n as nat) * R::extent_h(self.n as nat);
                    let mid = choose|mid: Seq<bool>|
                        sample_rel(
                            all_false(ext),
                            mid,
                            R::extent_w(self.n as nat),
                            R::extent_h(self.n as nat),
                            0nat,
                            self.sample_strategy,
                        ) && censor_bits == and_bits(mid, mask.bits());
                    lemma_sample_rel_zero(
                        all_false(ext),
                        mid,
                        R::extent_w(self.n as nat),
                        R::extent_h(self.n as nat),
                        self.sample_strategy,
                    );
                    assert(censor_bits =~= all_false(ext));
                    lemma_sample_rel_zero(
                        all_false(ext),
                        honest_bits,
                        R::extent_w(self.n as nat),
                        R::extent_h(self.n as nat),
                        self.sample_strategy,
                    );
                    assert(res.bits() =~= all_false(ext));
                    R::lemma_empty_never_reconstructs(self.n as nat, censor_target);
                    assert(!recon);
                }
            }
            if recon {
                recon_count = recon_count + 1;
            }
        }
        recon_count
    }
}

} // verus!

