//! Immutable settings that define a candidate space

use vstd::prelude::*;

verus! {

/// Maximum passphrase length accepted by Coldcard
pub const DEFAULT_MAX_PASSPHRASE_BYTES: usize = 100;

/// Candidate token order
#[derive(Debug, Clone, Copy, PartialEq, Eq, Structural, Hash)]
pub enum OrderMode {
    /// Keep token positions as written
    Written,
    /// Nearby swaps first, then every unique permutation
    Permuted,
}

/// Candidate spacing strategy
#[derive(Debug, Clone, Copy, PartialEq, Eq, Structural, Hash)]
pub enum SpacingMode {
    /// Join tokens with no spaces
    Concatenated,
    /// Insert one space between tokens
    Between,
    /// Try concatenated and between-token forms
    Both,
    /// Try every leading-space combination of Coldcard's Add Word workflow
    Coldcard,
}

/// Settings that define the immutable candidate space
#[derive(Debug, Clone, Copy, PartialEq, Eq, Structural)]
pub struct RecoverySettings {
    /// Number of nearest BIP39 words retained for each written token
    pub neighbors_per_word: usize,
    /// Maximum number of written tokens that may be replaced
    pub max_replacements: usize,
    /// Adjacent-swap distance emitted before exhaustive lexical permutations
    pub local_swap_radius: usize,
    /// Maximum candidate passphrase length in bytes
    pub max_passphrase_bytes: usize,
    /// Whether lowercase-only phases were completed by an earlier search
    pub lowercase_already_tried: bool,
    /// Token order strategy
    pub order: OrderMode,
    /// Spacing strategy
    pub spacing: SpacingMode,
    /// Whether the all-concatenated pattern was exhausted by an earlier search
    pub concatenated_already_tried: bool,
}

impl RecoverySettings {
    /// Built-in defaults
    pub fn defaults() -> (settings: Self)
        ensures
            settings == default_settings(),
    {
        RecoverySettings {
            neighbors_per_word: 3,
            max_replacements: 2,
            local_swap_radius: 3,
            max_passphrase_bytes: DEFAULT_MAX_PASSPHRASE_BYTES,
            lowercase_already_tried: false,
            order: OrderMode::Permuted,
            spacing: SpacingMode::Concatenated,
            concatenated_already_tried: false,
        }
    }
}

pub open spec fn default_settings() -> RecoverySettings {
    RecoverySettings {
        neighbors_per_word: 3,
        max_replacements: 2,
        local_swap_radius: 3,
        max_passphrase_bytes: 100,
        lowercase_already_tried: false,
        order: OrderMode::Permuted,
        spacing: SpacingMode::Concatenated,
        concatenated_already_tried: false,
    }
}

impl Default for RecoverySettings {
    fn default() -> (settings: Self)
        ensures
            settings == default_settings(),
    {
        RecoverySettings::defaults()
    }
}

} // verus!
