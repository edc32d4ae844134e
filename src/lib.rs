//! Lexical masking for grammar-constrained decoding: anchored automata for
//! the terminals of a grammar, the `dmatch` predicate that decides whether a
//! token can continue the current terminal, and the store of precomputed
//! vocabulary masks.
pub mod automaton;
pub mod dfa;
pub mod masker;
pub mod syncode;

pub use automaton::{Dfa, DfaError};
pub use dfa::{all_dfa_states, DFABuilder, DFAState};
pub use masker::{accept_sequences, store_size, MaskStore, Masker, StoreError};
pub use syncode::consume_prefix;
