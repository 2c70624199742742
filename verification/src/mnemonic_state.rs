//! Progress of a mnemonic recovery: its manifest, the entropy cursor, and
//! matches stored by rank without their words

use vstd::prelude::*;

use crate::bignat::BigNat;
use crate::domain::{BackendKind, CandidateId, MasterXpubTarget, TargetFingerprint, VerificationTarget};
use crate::error::RecoverError;
use crate::mnemonic::{MnemonicCandidate, MnemonicCursor, MnemonicPlan};
use crate::phase::decimal;
use crate::state::{BenchmarkRecord, MatchStatus, same_master_xpub};
use crate::text::owned;

verus! {

/// Version of the mnemonic state documents' format
pub const MNEMONIC_STATE_FORMAT_VERSION: u32 = 1;

/// Version of the mnemonic candidate ordering recorded in state
pub const MNEMONIC_STATE_ALGORITHM_VERSION: u32 = 1;

/// Immutable metadata for a mnemonic recovery
#[derive(Debug, Clone)]
pub struct MnemonicRecoveryManifest {
    /// State document format discriminator
    pub state_format_version: u32,
    /// Mnemonic candidate-ordering version
    pub algorithm_version: u32,
    /// Recovery kind discriminator
    pub recovery_kind: String,
    /// SHA-256 identifier of secret inputs and target
    pub spec_hash: String,
    /// Target master fingerprint
    pub target_fingerprint: TargetFingerprint,
    /// Strong wallet identity required for mnemonic recovery
    pub master_xpub: MasterXpubTarget,
    /// Configured BIP39 word count
    pub word_count: usize,
    /// Number of known positions
    pub known_word_count: usize,
    /// Number of unknown entropy bits
    pub unknown_entropy_bits: usize,
    /// Exact number of entropy assignments, encoded as decimal
    pub total_work: String,
    /// Manifest creation time as Unix seconds
    pub created_at_unix: u64,
}

/// Two mnemonic manifests describe the same recovery
pub open spec fn same_mnemonic_search(existing: MnemonicRecoveryManifest, expected: MnemonicRecoveryManifest) -> bool {
    &&& existing.recovery_kind@ == expected.recovery_kind@
    &&& existing.spec_hash@ == expected.spec_hash@
    &&& existing.target_fingerprint.view_bytes() == expected.target_fingerprint.view_bytes()
    &&& same_master_xpub(Some(existing.master_xpub), Some(expected.master_xpub))
    &&& existing.word_count == expected.word_count
    &&& existing.known_word_count == expected.known_word_count
    &&& existing.unknown_entropy_bits == expected.unknown_entropy_bits
    &&& existing.total_work@ == expected.total_work@
}

impl MnemonicRecoveryManifest {
    /// The manifest of a new mnemonic recovery; its target must hold a
    /// master public key
    pub fn expected(spec_hash: String, target: &VerificationTarget, plan: &MnemonicPlan, created_at_unix: u64) -> (result:
        Result<Self, RecoverError>)
        ensures
            match target.master_xpub_spec() {
                None => result matches Err(error) && error is InvalidSetting,
                Some(xpub) => result matches Ok(manifest) && {
                    &&& manifest.state_format_version == MNEMONIC_STATE_FORMAT_VERSION
                    &&& manifest.algorithm_version == MNEMONIC_STATE_ALGORITHM_VERSION
                    &&& manifest.recovery_kind@ == "mnemonic"@
                    &&& manifest.spec_hash == spec_hash
                    &&& manifest.target_fingerprint == target.fingerprint_spec()
                    &&& manifest.master_xpub == xpub
                    &&& manifest.word_count == plan.slots_view().len()
                    &&& manifest.known_word_count == crate::mnemonic::known_count(plan.slots_view())
                    &&& manifest.unknown_entropy_bits == plan.unknown_view().len()
                    &&& manifest.total_work@ == decimal(plan.total_work_view())
                    &&& manifest.created_at_unix == created_at_unix
                },
            },
    {
        let master_xpub = match target.master_xpub() {
            Some(xpub) => xpub.copy(),
            None => {
                return Err(RecoverError::InvalidSetting(owned("mnemonic recovery requires a master XPUB target")));
            },
        };
        Ok(
            MnemonicRecoveryManifest {
                state_format_version: MNEMONIC_STATE_FORMAT_VERSION,
                algorithm_version: MNEMONIC_STATE_ALGORITHM_VERSION,
                recovery_kind: owned("mnemonic"),
                spec_hash,
                target_fingerprint: target.fingerprint(),
                master_xpub,
                word_count: plan.template().word_count(),
                known_word_count: plan.template().known_word_count(),
                unknown_entropy_bits: plan.unknown_entropy_bits(),
                total_work: plan.total_work().to_decimal(),
                created_at_unix,
            },
        )
    }

    /// Reject a manifest of another format, algorithm or recovery kind
    pub fn check_versions(&self) -> (result: Result<(), RecoverError>)
        ensures
            result == if self.state_format_version != MNEMONIC_STATE_FORMAT_VERSION {
                Err::<(), RecoverError>(RecoverError::UnsupportedStateVersion(self.state_format_version))
            } else if self.algorithm_version != MNEMONIC_STATE_ALGORITHM_VERSION {
                Err::<(), RecoverError>(RecoverError::UnsupportedStateVersion(self.algorithm_version))
            } else if self.recovery_kind@ != "mnemonic"@ {
                Err::<(), RecoverError>(RecoverError::StateMismatch)
            } else {
                Ok::<(), RecoverError>(())
            },
    {
        if self.state_format_version != MNEMONIC_STATE_FORMAT_VERSION {
            return Err(RecoverError::UnsupportedStateVersion(self.state_format_version));
        }
        if self.algorithm_version != MNEMONIC_STATE_ALGORITHM_VERSION {
            return Err(RecoverError::UnsupportedStateVersion(self.algorithm_version));
        }
        if self.recovery_kind != owned("mnemonic") {
            return Err(RecoverError::StateMismatch);
        }
        Ok(())
    }
}

/// Accept an existing mnemonic manifest only if it is current and describes
/// the expected recovery
pub fn validate_mnemonic_manifest(existing: &MnemonicRecoveryManifest, expected: &MnemonicRecoveryManifest) -> (result:
    Result<(), RecoverError>)
    ensures
        result == if existing.state_format_version != MNEMONIC_STATE_FORMAT_VERSION {
            Err::<(), RecoverError>(RecoverError::UnsupportedStateVersion(existing.state_format_version))
        } else if existing.algorithm_version != MNEMONIC_STATE_ALGORITHM_VERSION {
            Err::<(), RecoverError>(RecoverError::UnsupportedStateVersion(existing.algorithm_version))
        } else if !same_mnemonic_search(*existing, *expected) {
            Err::<(), RecoverError>(RecoverError::StateMismatch)
        } else {
            Ok::<(), RecoverError>(())
        },
{
    if existing.state_format_version != MNEMONIC_STATE_FORMAT_VERSION {
        return Err(RecoverError::UnsupportedStateVersion(existing.state_format_version));
    }
    if existing.algorithm_version != MNEMONIC_STATE_ALGORITHM_VERSION {
        return Err(RecoverError::UnsupportedStateVersion(existing.algorithm_version));
    }
    if existing.recovery_kind != expected.recovery_kind || existing.spec_hash != expected.spec_hash
        || !existing.target_fingerprint.same_bytes(expected.target_fingerprint) || !existing.master_xpub.same_key(
        &expected.master_xpub,
    ) || existing.word_count != expected.word_count || existing.known_word_count != expected.known_word_count
        || existing.unknown_entropy_bits != expected.unknown_entropy_bits || existing.total_work != expected.total_work {
        return Err(RecoverError::StateMismatch);
    }
    Ok(())
}

/// A mnemonic match stored by rank without persisting recovered words
#[derive(Debug, Clone)]
pub struct MnemonicMatchRecord {
    /// Stable candidate identifier
    pub id: CandidateId,
    /// Entropy-assignment rank encoded as decimal
    pub rank: String,
    /// Current manual-verification status
    pub status: MatchStatus,
}

impl MnemonicMatchRecord {
    /// Construct a pending record from a verified candidate
    pub fn pending(candidate: &MnemonicCandidate) -> (record: Self)
        ensures
            record.id.0@ == crate::digest::hex_text(
                crate::digest::sha256_of(
                    crate::mnemonic::mnemonic_id_message(vstd::utf8::encode_utf8(candidate.phrase_view())),
                ),
            ),
            record.rank@ == decimal(candidate.rank_value()),
            record.status == MatchStatus::Pending,
    {
        MnemonicMatchRecord { id: candidate.id(), rank: candidate.rank().to_decimal(), status: MatchStatus::Pending }
    }

    /// Parse the durable candidate rank
    pub fn parsed_rank(&self) -> (result: Result<BigNat, RecoverError>)
        ensures
            forall|n: nat| self.rank@ == decimal(n) ==> (result matches Ok(rank) && rank.value() == n),
            result matches Err(error) ==> error is InvalidSetting,
    {
        match BigNat::parse_decimal(self.rank.as_str()) {
            Some(rank) => Ok(rank),
            None => Err(RecoverError::InvalidSetting(owned("mnemonic match contains an invalid rank"))),
        }
    }
}

/// A match recorded with its candidate's rank, read back, ranks a candidate
/// with the same phrase: the stored decimal rank parses to the candidate's
/// rank, and a rank determines the phrase of its candidate
pub proof fn lemma_recorded_rank_recovers_candidate(
    slots: Seq<u16>,
    stored: MnemonicCandidate,
    record: MnemonicMatchRecord,
    parsed: nat,
    found: MnemonicCandidate,
)
    requires
        crate::mnemonic::supported_word_count(slots.len()),
        crate::mnemonic::candidate_of_rank(slots, stored),
        record.rank@ == decimal(stored.rank_value()),
        forall|n: nat| record.rank@ == decimal(n) ==> parsed == n,
        crate::mnemonic::candidate_of_rank(slots, found),
        found.rank_value() == parsed,
    ensures
        found.phrase_view() == stored.phrase_view(),
{
    assert(parsed == stored.rank_value());
    crate::mnemonic::lemma_rank_determines_candidate(slots, stored, found);
}

/// Mutable mnemonic-recovery progress
pub struct MnemonicRuntimeState {
    /// Next entropy assignment
    pub cursor: MnemonicCursor,
    /// CPU benchmark measurements
    pub benchmarks: Vec<BenchmarkRecord>,
    /// Strong wallet-identity matches
    pub matches: Vec<MnemonicMatchRecord>,
}

impl Default for MnemonicRuntimeState {
    fn default() -> (state: Self)
        ensures
            state.cursor.next_rank.value() == 0,
            state.benchmarks@.len() == 0,
            state.matches@.len() == 0,
    {
        MnemonicRuntimeState { cursor: MnemonicCursor::default(), benchmarks: Vec::new(), matches: Vec::new() }
    }
}

/// Some record has the identifier
pub open spec fn knows_mnemonic_id(records: Seq<MnemonicMatchRecord>, id: Seq<char>) -> bool {
    exists|k: int| 0 <= k < records.len() && (#[trigger] records[k]).id.0@ == id
}

/// Known records followed by the new ones whose identifiers are not yet
/// known, in order
pub open spec fn merged_mnemonic_matches(known: Seq<MnemonicMatchRecord>, new: Seq<MnemonicMatchRecord>) -> Seq<
    MnemonicMatchRecord,
>
    decreases new.len(),
{
    if new.len() == 0 {
        known
    } else {
        let merged = merged_mnemonic_matches(known, new.drop_last());
        if knows_mnemonic_id(merged, new.last().id.0@) {
            merged
        } else {
            merged.push(new.last())
        }
    }
}

/// Index of the first pending record with the identifier, if any
pub open spec fn first_pending_mnemonic(records: Seq<MnemonicMatchRecord>, id: Seq<char>) -> int
    decreases records.len(),
{
    if records.len() == 0 {
        -1
    } else {
        let earlier = first_pending_mnemonic(records.drop_last(), id);
        if earlier >= 0 {
            earlier
        } else if records.last().id.0@ == id && records.last().status == MatchStatus::Pending {
            records.len() - 1
        } else {
            -1
        }
    }
}

proof fn lemma_first_pending_mnemonic_bounds(records: Seq<MnemonicMatchRecord>, id: Seq<char>)
    ensures
        -1 <= first_pending_mnemonic(records, id) < records.len(),
        first_pending_mnemonic(records, id) >= 0 ==> records[first_pending_mnemonic(records, id)].id.0@ == id
            && records[first_pending_mnemonic(records, id)].status == MatchStatus::Pending,
        first_pending_mnemonic(records, id) < 0 ==> forall|k: int|
            0 <= k < records.len() ==> !((#[trigger] records[k]).id.0@ == id && records[k].status
                == MatchStatus::Pending),
    decreases records.len(),
{
    if records.len() > 0 {
        lemma_first_pending_mnemonic_bounds(records.drop_last(), id);
        assert forall|k: int| 0 <= k < records.len() - 1 implies #[trigger] records[k] == records.drop_last()[k] by {}
    }
}

proof fn lemma_first_pending_mnemonic_index(records: Seq<MnemonicMatchRecord>, id: Seq<char>, i: int)
    requires
        0 <= i < records.len(),
        records[i].id.0@ == id && records[i].status == MatchStatus::Pending,
        forall|k: int|
            0 <= k < i ==> !((#[trigger] records[k]).id.0@ == id && records[k].status == MatchStatus::Pending),
    ensures
        first_pending_mnemonic(records, id) == i,
    decreases records.len(),
{
    if i < records.len() - 1 {
        lemma_first_pending_mnemonic_index(records.drop_last(), id, i);
    } else {
        lemma_first_pending_mnemonic_bounds(records.drop_last(), id);
        if first_pending_mnemonic(records.drop_last(), id) >= 0 {
            let k = first_pending_mnemonic(records.drop_last(), id);
            assert(records.drop_last()[k] == records[k]);
        }
    }
}

/// State of a mnemonic recovery in one protected directory
///
/// Changes are made in memory; the caller persists the runtime document
/// after each change.
pub struct MnemonicRecoveryState {
    directory: String,
    manifest: MnemonicRecoveryManifest,
    runtime: MnemonicRuntimeState,
}

impl MnemonicRecoveryState {
    pub closed spec fn directory_view(&self) -> Seq<char> {
        self.directory@
    }

    pub closed spec fn manifest_view(&self) -> MnemonicRecoveryManifest {
        self.manifest
    }

    pub closed spec fn cursor_view(&self) -> nat {
        self.runtime.cursor.next_rank.value()
    }

    pub closed spec fn matches_view(&self) -> Seq<MnemonicMatchRecord> {
        self.runtime.matches@
    }

    pub closed spec fn benchmarks_view(&self) -> Seq<BenchmarkRecord> {
        self.runtime.benchmarks@
    }

    /// State read from, or created in, a directory
    pub fn from_parts(directory: String, manifest: MnemonicRecoveryManifest, runtime: MnemonicRuntimeState) -> (state:
        Self)
        ensures
            state.directory_view() == directory@,
            state.manifest_view() == manifest,
            state.cursor_view() == runtime.cursor.next_rank.value(),
            state.matches_view() == runtime.matches@,
            state.benchmarks_view() == runtime.benchmarks@,
    {
        MnemonicRecoveryState { directory, manifest, runtime }
    }

    /// Directory that holds the state documents
    pub fn directory(&self) -> (directory: &str)
        ensures
            directory@ == self.directory_view(),
    {
        self.directory.as_str()
    }

    /// Immutable recovery manifest
    pub fn manifest(&self) -> (manifest: &MnemonicRecoveryManifest)
        ensures
            *manifest == self.manifest_view(),
    {
        &self.manifest
    }

    /// Runtime progress
    pub fn runtime(&self) -> (runtime: &MnemonicRuntimeState)
        ensures
            runtime.cursor.next_rank.value() == self.cursor_view(),
            runtime.matches@ == self.matches_view(),
            runtime.benchmarks@ == self.benchmarks_view(),
    {
        &self.runtime
    }

    /// Strong wallet identity stored in the manifest
    pub fn verification_target(&self) -> (target: VerificationTarget)
        ensures
            target matches VerificationTarget::MasterXpub { fingerprint, master_xpub } && master_xpub
                == self.manifest_view().master_xpub && fingerprint.view_bytes()
                == self.manifest_view().master_xpub.fingerprint_view(),
    {
        VerificationTarget::from_master_xpub(self.manifest.master_xpub.copy())
    }

    /// The next entropy-assignment cursor
    pub fn cursor(&self) -> (cursor: MnemonicCursor)
        ensures
            cursor.next_rank.value() == self.cursor_view(),
    {
        MnemonicCursor { next_rank: self.runtime.cursor.next_rank.copy() }
    }

    /// Whether a verified candidate awaits manual confirmation
    pub fn has_pending_matches(&self) -> (pending: bool)
        ensures
            pending == exists|k: int|
                0 <= k < self.matches_view().len() && (#[trigger] self.matches_view()[k]).status
                    == MatchStatus::Pending,
    {
        let mut i: usize = 0;
        while i < self.runtime.matches.len()
            invariant
                i <= self.runtime.matches@.len(),
                forall|k: int| 0 <= k < i ==> (#[trigger] self.runtime.matches@[k]).status != MatchStatus::Pending,
            decreases self.runtime.matches@.len() - i,
        {
            if self.runtime.matches[i].status == MatchStatus::Pending {
                return true;
            }
            i = i + 1;
        }
        false
    }

    fn knows(&self, id: &CandidateId) -> (known: bool)
        ensures
            known == knows_mnemonic_id(self.runtime.matches@, id.0@),
    {
        let mut i: usize = 0;
        while i < self.runtime.matches.len()
            invariant
                i <= self.runtime.matches@.len(),
                forall|k: int| 0 <= k < i ==> (#[trigger] self.runtime.matches@[k]).id.0@ != id.0@,
            decreases self.runtime.matches@.len() - i,
        {
            if self.runtime.matches[i].id.0 == id.0 {
                return true;
            }
            i = i + 1;
        }
        false
    }

    /// Record a completed batch: its next cursor, and the matches whose
    /// identifiers are not yet known, in order
    pub fn complete_chunk(&mut self, cursor: MnemonicCursor, matches: Vec<MnemonicMatchRecord>)
        ensures
            final(self).cursor_view() == cursor.next_rank.value(),
            final(self).matches_view() == merged_mnemonic_matches(old(self).matches_view(), matches@),
            final(self).benchmarks_view() == old(self).benchmarks_view(),
            final(self).manifest_view() == old(self).manifest_view(),
            final(self).directory_view() == old(self).directory_view(),
    {
        self.runtime.cursor = cursor;
        let ghost known = self.runtime.matches@;
        let ghost new = matches@;
        let ghost rank = self.runtime.cursor.next_rank.value();
        let mut rest = matches;
        let n = rest.len();
        let mut i: usize = 0;
        while rest.len() > 0
            invariant
                n == new.len(),
                i <= new.len(),
                rest@ == new.skip(i as int),
                self.runtime.matches@ == merged_mnemonic_matches(known, new.take(i as int)),
                self.runtime.cursor.next_rank.value() == rank,
                self.runtime.benchmarks@ == old(self).runtime.benchmarks@,
                self.manifest == old(self).manifest,
                self.directory == old(self).directory,
            decreases rest@.len(),
        {
            let record = rest.remove(0);
            assert(new.take(i + 1).drop_last() =~= new.take(i as int));
            assert(new.take(i + 1).last() == record);
            if !self.knows(&record.id) {
                self.runtime.matches.push(record);
            }
            i = i + 1;
            assert(rest@ =~= new.skip(i as int));
        }
        assert(new.take(i as int) =~= new);
    }

    /// Replace the stored benchmark; only the CPU backend recovers mnemonics
    pub fn record_benchmark(&mut self, benchmark: BenchmarkRecord) -> (result: Result<(), RecoverError>)
        ensures
            benchmark.backend == BackendKind::Cpu ==> result is Ok && final(self).benchmarks_view() == seq![benchmark],
            benchmark.backend != BackendKind::Cpu ==> (result matches Err(error) && error is BackendUnavailable
                && final(self).benchmarks_view() == old(self).benchmarks_view()),
            final(self).cursor_view() == old(self).cursor_view(),
            final(self).matches_view() == old(self).matches_view(),
            final(self).manifest_view() == old(self).manifest_view(),
            final(self).directory_view() == old(self).directory_view(),
    {
        if benchmark.backend != BackendKind::Cpu {
            return Err(
                RecoverError::BackendUnavailable(owned("mnemonic recovery currently supports only the CPU backend")),
            );
        }
        self.runtime.benchmarks.clear();
        self.runtime.benchmarks.push(benchmark);
        Ok(())
    }

    /// Most recent CPU benchmark
    pub fn latest_benchmark(&self) -> (latest: Option<&BenchmarkRecord>)
        ensures
            self.benchmarks_view().len() == 0 ==> latest is None,
            self.benchmarks_view().len() > 0 ==> latest == Some(&self.benchmarks_view().last()),
    {
        let count = self.runtime.benchmarks.len();
        if count == 0 {
            None
        } else {
            Some(&self.runtime.benchmarks[count - 1])
        }
    }

    /// Mark the first pending mnemonic match with the identifier as rejected
    pub fn reject_match(&mut self, id: &str) -> (result: Result<(), RecoverError>)
        ensures
            final(self).cursor_view() == old(self).cursor_view(),
            final(self).benchmarks_view() == old(self).benchmarks_view(),
            final(self).manifest_view() == old(self).manifest_view(),
            final(self).directory_view() == old(self).directory_view(),
            first_pending_mnemonic(old(self).matches_view(), id@) < 0 ==> (result matches Err(
                RecoverError::MatchNotFound(shown),
            ) && shown@ == id@ && final(self).matches_view() == old(self).matches_view()),
            first_pending_mnemonic(old(self).matches_view(), id@) >= 0 ==> result is Ok && {
                let k = first_pending_mnemonic(old(self).matches_view(), id@);
                let r = old(self).matches_view()[k];
                final(self).matches_view() == old(self).matches_view().update(
                    k,
                    MnemonicMatchRecord { status: MatchStatus::Rejected, ..r },
                )
            },
    {
        proof {
            lemma_first_pending_mnemonic_bounds(self.runtime.matches@, id@);
        }
        let wanted = owned(id);
        let ghost before = self.runtime.matches@;
        let mut i: usize = 0;
        while i < self.runtime.matches.len()
            invariant
                wanted@ == id@,
                before == self.runtime.matches@,
                before == old(self).runtime.matches@,
                self.runtime.cursor == old(self).runtime.cursor,
                self.runtime.benchmarks@ == old(self).runtime.benchmarks@,
                self.manifest == old(self).manifest,
                self.directory == old(self).directory,
                i <= before.len(),
                forall|k: int|
                    0 <= k < i ==> !((#[trigger] before[k]).id.0@ == id@ && before[k].status == MatchStatus::Pending),
            decreases before.len() - i,
        {
            if self.runtime.matches[i].id.0 == wanted && self.runtime.matches[i].status == MatchStatus::Pending {
                proof {
                    lemma_first_pending_mnemonic_index(before, id@, i as int);
                }
                let mut record = self.runtime.matches.remove(i);
                record.status = MatchStatus::Rejected;
                self.runtime.matches.insert(i, record);
                assert(self.runtime.matches@ =~= before.update(
                    i as int,
                    MnemonicMatchRecord { status: MatchStatus::Rejected, ..before[i as int] },
                ));
                return Ok(());
            }
            i = i + 1;
        }
        Err(RecoverError::MatchNotFound(wanted))
    }
}

} // verus!
