//! Analysis of a discrete cipher channel: from priors over plaintexts and
//! keys and a substitution table, the library derives the ciphertext
//! marginal, the plaintext/ciphertext joint distribution and the posterior
//! of the plaintext given the ciphertext, and scores decision rules that
//! guess the plaintext by their average loss.
//!
//! Probabilities are integer weights: a prior entry is a count of
//! millionths, so a joint or marginal weight is a count of millionths of
//! millionths, exact. A posterior is a count of `lab::CONDITIONAL_ONE`-ths,
//! rounded down; a ciphertext that never occurs has a posterior of zero.
//!
//! `input` reads a channel from CSV text, `tables` checks its priors and
//! table, `probabilities` derives P(C) and P(M, C), `lab` adds P(M | C), and
//! `decision` builds the decision rules and scores them.
pub mod sums;
pub mod matrix;
pub mod fields;
pub mod tables;
pub mod probabilities;
pub mod lab;
pub mod decision;
pub mod input;
