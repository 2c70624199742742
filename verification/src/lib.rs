//! Deterministic, resumable BIP39 passphrase and mnemonic recovery

pub mod error;
pub mod phase;
pub mod bytes;
pub mod combinatorics;
pub mod casing;
pub mod settings;
pub mod spacing;
pub mod text;
pub mod digest;
pub mod domain;
pub mod neighbors;
pub mod multiset;
pub mod bases;
pub mod trie;
pub mod language;
pub mod search;
pub mod hybrid;
pub mod crypto;
pub mod input;
pub mod config;
pub mod state;
pub mod backend;
pub mod benchmark;
pub mod engine;
pub mod bignat;
pub mod mnemonic;
pub mod mnemonic_state;
pub mod mnemonic_engine;
pub mod report;
