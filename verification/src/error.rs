use vstd::prelude::*;

verus! {

/// Errors produced by recovery planning and execution
#[derive(Debug, Clone, PartialEq, Eq)]
pub enum RecoverError {
    /// Input or state file could not be read or written
    Io { path: String, message: String },
    /// A protected file grants access to group or other users
    InsecurePermissions(String),
    /// A required environment-backed recovery input is absent
    MissingEnvironmentVariable(String),
    /// An environment-backed recovery input is not valid UTF-8
    InvalidEnvironmentVariable(String),
    /// Mnemonic input is not a valid English BIP39 mnemonic
    InvalidMnemonic(String),
    /// Fingerprint input is not exactly eight hexadecimal digits
    InvalidFingerprint(String),
    /// Master extended public key is invalid or is not depth zero
    InvalidMasterXpub(String),
    /// Master extended public key and requested fingerprint disagree
    MasterXpubFingerprintMismatch,
    /// No written words were supplied
    NoWrittenWords,
    /// A written token contains unsupported characters
    InvalidWrittenWord { line: usize },
    /// Search configuration is outside supported bounds
    InvalidSetting(String),
    /// Candidate counting overflowed the durable counter type
    CountOverflow,
    /// State JSON is invalid
    InvalidState { path: String, message: String },
    /// Existing state belongs to different secret inputs or settings
    StateMismatch,
    /// State schema or algorithm version is unsupported
    UnsupportedStateVersion(u32),
    /// Requested phase is not enabled by the configured replacement limit
    DisabledPhase(String),
    /// Backend was not compiled into this binary or cannot run here
    BackendUnavailable(String),
    /// Seed derivation failed
    SeedDerivation(String),
    /// A benchmark plan cannot fill every warmup and timed batch
    InsufficientBenchmarkCandidates { required: usize, available: u128 },
    /// Candidate preparation thread terminated unexpectedly
    CandidatePreparationPanic,
    /// Fingerprint derivation failed
    FingerprintDerivation(String),
    /// Search cannot continue while candidates await manual verification
    PendingMatches,
    /// Requested match identifier does not exist or is already resolved
    MatchNotFound(String),
}

} // verus!
