//! An order-1 transition model over a vocabulary of tokens.
//!
//! The model counts, for every token, how often each token followed it, and
//! walks these counts at random to generate new sequences. Weights are kept
//! as exact fractions of integers, and every node lists its successors in the
//! order in which they were first seen, so that equal counts are always
//! ordered the same way.
//!
//! - [`token`]: tokens, their text, and the tokenizers.
//! - [`weights`]: tallies of successors and the weight tables derived from
//!   them.
//! - [`node`]: what follows one token.
//! - [`chain`]: the model, one node for every token.
//! - [`walk`]: random walks over the model and the text they render to.
//! - [`laws`]: what holds of every tally and every node.
//! - [`error`]: the failures reported.

pub mod chain;
pub mod error;
pub mod laws;
pub mod node;
mod random;
pub mod text;
pub mod token;
pub mod walk;
pub mod weights;
