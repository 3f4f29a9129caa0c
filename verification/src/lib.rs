//! A generic Markov chain for almost any token type.
//!
//! The chain learns, from training sequences, how often each context of
//! `order` preceding tokens is followed by each possible next token, and
//! generates new sequences by a weighted random walk over that table.

pub mod model;
mod chain;
pub mod laws;
mod rng;
mod table;
mod token;
mod words;

pub use chain::{Chain, ChainParts, InfiniteChainIterator, SizedChainIterator};
pub use rng::{EntropySource, RandomSource, ScriptedSource, SeededSource};
pub use token::Chainable;
pub use words::{InfiniteChainStringIterator, SizedChainStringIterator};
