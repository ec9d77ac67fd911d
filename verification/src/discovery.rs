//! The options of a discovery run.
//!
//! Percentiles and the width of the warping band are given in parts per
//! thousand, penalties as whole weights.

use crate::alignments::AlignmentParams;
use crate::numerics::PER_MILLE;
use vstd::prelude::*;

verus! {

/// The options of a discovery run.
#[derive(Clone, Debug)]
pub struct Discovery {
    pub dft_win: usize,
    pub dft_step: usize,
    pub ceps_filter: usize,
    pub vat_moving: usize,
    pub vat_percentile: u64,
    pub vat_min_len: usize,
    pub alignment_workers: usize,
    pub clustering_percentile: u64,
    pub merging_percentile: u64,
    pub merging_internal_percentile: u64,
    pub merging_moving: usize,
    pub warping_band_percentage: u64,
    pub insertion_penalty: u64,
    pub deletion_penalty: u64,
    pub match_penalty: u64,
}

/// The width of the warping band for sequences of up to `n_size` frames:
/// the given share of `n_size`, rounded down, and no more than fits.
pub open spec fn warping_band_spec(per_mille: u64, n_size: usize) -> usize {
    let band = (per_mille * n_size) / (PER_MILLE as int);
    if band > usize::MAX {
        usize::MAX
    } else {
        band as usize
    }
}

impl Discovery {
    /// What `alignment_params` returns.
    pub open spec fn alignment_params_spec(&self, n_size: usize) -> AlignmentParams {
        AlignmentParams {
            warping_band: warping_band_spec(self.warping_band_percentage, n_size),
            insertion_penalty: self.insertion_penalty,
            match_penalty: self.match_penalty,
            deletion_penalty: self.deletion_penalty,
        }
    }

    /// The parameters of the alignment of two sequences, the longer of
    /// which has `n_size` frames.
    pub fn alignment_params(&self, n_size: usize) -> (r: AlignmentParams)
        ensures
            r == self.alignment_params_spec(n_size),
    {
        assert(self.warping_band_percentage * n_size <= 0xffff_ffff_ffff_ffff
            * 0xffff_ffff_ffff_ffff) by (nonlinear_arith)
            requires
                self.warping_band_percentage <= 0xffff_ffff_ffff_ffff,
                n_size <= 0xffff_ffff_ffff_ffff,
        ;
        let band: u128 = (self.warping_band_percentage as u128) * (n_size as u128) / (
        PER_MILLE as u128);
        let warping_band: usize = if band > usize::MAX as u128 {
            usize::MAX
        } else {
            band as usize
        };
        AlignmentParams {
            warping_band,
            insertion_penalty: self.insertion_penalty,
            match_penalty: self.match_penalty,
            deletion_penalty: self.deletion_penalty,
        }
    }
}

} // verus!
