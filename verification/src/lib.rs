//! Unsupervised discovery of repeated temporal patterns in feature
//! sequences: banded dynamic time warping, agglomerative clustering,
//! state merging into compact probabilistic automata, and Viterbi scoring.
//!
//! All quantities are fixed-point integers; see `numerics`.

pub mod error;
pub mod numerics;
pub mod spectrogram;
pub mod discovery;
pub mod alignments;
pub mod audio;
pub mod clustering;
pub mod hidden_markov_model;
pub mod aligned_model_merging;
pub mod reporting;
