//! Recovery progress: the manifest that pins a search, checkpoints, matches
//! awaiting manual verification, and backend measurements

use vstd::prelude::*;

use crate::domain::{
    initial_cursor,
    backend_name, BackendConfiguration, BackendKind, Candidate, CandidateCursor, CandidateId, MasterXpubTarget, PhaseSummary,
    TargetFingerprint, VerificationTarget, ALGORITHM_VERSION,
};
use crate::error::RecoverError;
use crate::phase::SearchPhase;
use crate::settings::RecoverySettings;
use crate::text::{copy_strings, owned};

verus! {

/// Version of the state documents' format
pub const STATE_FORMAT_VERSION: u32 = 2;

/// Immutable recovery metadata stored without plaintext secrets
#[derive(Debug, Clone)]
pub struct RecoveryManifest {
    /// State document format discriminator
    pub state_format_version: u32,
    /// State and candidate-ordering version
    pub algorithm_version: u32,
    /// SHA-256 identifier of the secret inputs and immutable settings
    pub spec_hash: String,
    /// Target Coldcard fingerprint
    pub target_fingerprint: TargetFingerprint,
    /// Optional master public key used for chain-code filtering
    pub master_xpub: Option<MasterXpubTarget>,
    /// Immutable search settings
    pub settings: RecoverySettings,
    /// Exact counts for enabled phases
    pub phases: Vec<PhaseSummary>,
    /// Manifest creation time as Unix seconds
    pub created_at_unix: u64,
}

/// The same master public key, or none on both sides
pub open spec fn same_master_xpub(a: Option<MasterXpubTarget>, b: Option<MasterXpubTarget>) -> bool {
    match (a, b) {
        (None, None) => true,
        (Some(x), Some(y)) => x.text_view() == y.text_view() && x.chain_code_view() == y.chain_code_view()
            && x.public_key_view() == y.public_key_view() && x.fingerprint_view() == y.fingerprint_view(),
        _ => false,
    }
}

/// Two manifests describe the same search
pub open spec fn same_search(existing: RecoveryManifest, expected: RecoveryManifest) -> bool {
    &&& existing.spec_hash@ == expected.spec_hash@
    &&& existing.target_fingerprint.view_bytes() == expected.target_fingerprint.view_bytes()
    &&& same_master_xpub(existing.master_xpub, expected.master_xpub)
    &&& existing.settings == expected.settings
    &&& existing.phases@ == expected.phases@
}

impl RecoveryManifest {
    /// The manifest of a new search, at the current format and algorithm
    /// versions
    pub fn expected(
        spec_hash: String,
        target: &VerificationTarget,
        settings: RecoverySettings,
        phases: Vec<PhaseSummary>,
        created_at_unix: u64,
    ) -> (manifest: Self)
        ensures
            manifest.state_format_version == STATE_FORMAT_VERSION,
            manifest.algorithm_version == ALGORITHM_VERSION,
            manifest.spec_hash == spec_hash,
            manifest.target_fingerprint == target.fingerprint_spec(),
            manifest.master_xpub == target.master_xpub_spec(),
            manifest.settings == settings,
            manifest.phases == phases,
            manifest.created_at_unix == created_at_unix,
    {
        let master_xpub = match target.master_xpub() {
            Some(xpub) => Some(xpub.copy()),
            None => None,
        };
        RecoveryManifest {
            state_format_version: STATE_FORMAT_VERSION,
            algorithm_version: ALGORITHM_VERSION,
            spec_hash,
            target_fingerprint: target.fingerprint(),
            master_xpub,
            settings,
            phases,
            created_at_unix,
        }
    }

    /// Reject a manifest of another format or algorithm version
    pub fn check_versions(&self) -> (result: Result<(), RecoverError>)
        ensures
            result == if self.state_format_version != STATE_FORMAT_VERSION {
                Err::<(), RecoverError>(RecoverError::UnsupportedStateVersion(self.state_format_version))
            } else if self.algorithm_version != ALGORITHM_VERSION {
                Err::<(), RecoverError>(RecoverError::UnsupportedStateVersion(self.algorithm_version))
            } else {
                Ok::<(), RecoverError>(())
            },
    {
        if self.state_format_version != STATE_FORMAT_VERSION {
            return Err(RecoverError::UnsupportedStateVersion(self.state_format_version));
        }
        if self.algorithm_version != ALGORITHM_VERSION {
            return Err(RecoverError::UnsupportedStateVersion(self.algorithm_version));
        }
        Ok(())
    }

    /// Validated wallet identity used by recovery backends
    pub fn verification_target(&self) -> (result: Result<VerificationTarget, RecoverError>)
        ensures
            match self.master_xpub {
                None => result == Ok::<VerificationTarget, RecoverError>(
                    VerificationTarget::Fingerprint(self.target_fingerprint),
                ),
                Some(xpub) => if xpub.fingerprint_view() == self.target_fingerprint.view_bytes() {
                    result matches Ok(VerificationTarget::MasterXpub { fingerprint, master_xpub }) && fingerprint
                        == self.target_fingerprint && same_master_xpub(Some(master_xpub), Some(xpub))
                } else {
                    result == Err::<VerificationTarget, RecoverError>(RecoverError::MasterXpubFingerprintMismatch)
                },
            },
    {
        let master_xpub = match &self.master_xpub {
            Some(xpub) => Some(xpub.copy()),
            None => None,
        };
        VerificationTarget::new(self.target_fingerprint, master_xpub)
    }
}

fn same_phases(a: &Vec<PhaseSummary>, b: &Vec<PhaseSummary>) -> (same: bool)
    ensures
        same == (a@ == b@),
{
    if a.len() != b.len() {
        return false;
    }
    let mut i: usize = 0;
    while i < a.len()
        invariant
            a@.len() == b@.len(),
            i <= a@.len(),
            forall|j: int| 0 <= j < i ==> a@[j] == b@[j],
        decreases a@.len() - i,
    {
        if a[i] != b[i] {
            return false;
        }
        i = i + 1;
    }
    assert(a@ =~= b@);
    true
}

/// Accept an existing manifest only if it is current and describes the
/// expected search
pub fn validate_manifest(existing: &RecoveryManifest, expected: &RecoveryManifest) -> (result: Result<(), RecoverError>)
    ensures
        result == if existing.state_format_version != STATE_FORMAT_VERSION {
            Err::<(), RecoverError>(RecoverError::UnsupportedStateVersion(existing.state_format_version))
        } else if existing.algorithm_version != ALGORITHM_VERSION {
            Err::<(), RecoverError>(RecoverError::UnsupportedStateVersion(existing.algorithm_version))
        } else if !same_search(*existing, *expected) {
            Err::<(), RecoverError>(RecoverError::StateMismatch)
        } else {
            Ok::<(), RecoverError>(())
        },
{
    match existing.check_versions() {
        Ok(()) => {},
        Err(error) => return Err(error),
    }
    let same_xpub = match (&existing.master_xpub, &expected.master_xpub) {
        (None, None) => true,
        (Some(x), Some(y)) => x.same_key(y),
        _ => false,
    };
    if existing.spec_hash != expected.spec_hash || !existing.target_fingerprint.same_bytes(
        expected.target_fingerprint,
    ) || !same_xpub || existing.settings != expected.settings || !same_phases(&existing.phases, &expected.phases) {
        return Err(RecoverError::StateMismatch);
    }
    Ok(())
}

/// Measured backend throughput used to estimate search duration
///
/// Each rate is the IEEE 754 bit pattern of a number of operations per
/// second, which keeps it exactly and orders it as `f64::total_cmp` does.
#[derive(Debug, Clone)]
pub struct BenchmarkRecord {
    /// Backend measured
    pub backend: BackendKind,
    /// Number of candidates in the benchmark sample
    pub candidates: usize,
    /// Batch size selected for full recovery runs
    pub batch_size: usize,
    /// Accelerator workgroup size when applicable
    pub workgroup_size: Option<u32>,
    /// CPU percentage used by an explicit hybrid backend
    pub cpu_share_percent: Option<u8>,
    /// Hardware identity for which this measurement is valid
    pub hardware_signature: Option<String>,
    /// BIP39 seed derivations per second
    pub seeds_per_second_bits: u64,
    /// Sustained checks per second with candidate preparation overlapped
    pub checks_per_second_bits: u64,
    /// Complete backend verifications per second without candidate generation
    pub verification_per_second_bits: u64,
    /// Host candidate preparation per second
    pub generation_per_second_bits: u64,
    /// Device/runtime description
    pub device: String,
    /// Measurement time as Unix seconds
    pub measured_at_unix: u64,
}

/// CPU share of a hybrid benchmark recorded before the share was stored
pub const LEGACY_HYBRID_CPU_SHARE: u8 = 35;

impl BenchmarkRecord {
    /// Reconstruct and validate the selected runtime configuration
    ///
    /// A CPU takes the batch size; an accelerator also needs a workgroup
    /// size; a hybrid backend also takes its CPU share, 35 when none was
    /// recorded; `auto` is never a stored backend.
    pub fn configuration(&self) -> (result: Result<BackendConfiguration, RecoverError>)
        ensures
            match self.backend {
                BackendKind::Cpu => {
                    &&& result is Ok <==> self.batch_size > 0
                    &&& result matches Ok(c) ==> c matches BackendConfiguration::Cpu { batch_size: b } && b.value()
                        == self.batch_size
                },
                BackendKind::CubeCpu | BackendKind::Metal | BackendKind::Cuda => {
                    &&& result is Ok <==> (self.batch_size > 0 && (self.workgroup_size matches Some(w) && w > 0))
                    &&& result matches Ok(c) ==> c matches BackendConfiguration::Cube {
                        batch_size: b,
                        workgroup_size: w,
                    } && b.value() == self.batch_size && Some(w.value()) == self.workgroup_size
                },
                BackendKind::Hybrid => {
                    &&& result is Ok <==> (self.batch_size > 0 && 1 <= hybrid_share(self.cpu_share_percent) <= 99 && (
                    self.workgroup_size matches Some(w) && w > 0))
                    &&& result matches Ok(c) ==> c matches BackendConfiguration::Hybrid {
                        batch_size: b,
                        workgroup_size: w,
                        cpu_share: share,
                    } && b.value() == self.batch_size && Some(w.value()) == self.workgroup_size && share.value()
                        == hybrid_share(self.cpu_share_percent)
                },
                BackendKind::Auto => result is Err,
            },
            result matches Err(error) ==> error is InvalidSetting,
    {
        match self.backend {
            BackendKind::Cpu => BackendConfiguration::cpu(self.batch_size),
            BackendKind::CubeCpu | BackendKind::Metal | BackendKind::Cuda => match self.workgroup_size {
                Some(workgroup_size) => BackendConfiguration::cube(self.batch_size, workgroup_size),
                None => Err(RecoverError::InvalidSetting(missing_workgroup_message(self.backend))),
            },
            BackendKind::Hybrid => match self.workgroup_size {
                Some(workgroup_size) => {
                    let share = match self.cpu_share_percent {
                        Some(share) => share,
                        None => LEGACY_HYBRID_CPU_SHARE,
                    };
                    BackendConfiguration::hybrid(self.batch_size, workgroup_size, share)
                },
                None => Err(RecoverError::InvalidSetting(missing_workgroup_message(self.backend))),
            },
            BackendKind::Auto => Err(
                RecoverError::InvalidSetting(owned("auto cannot be stored as a benchmark backend")),
            ),
        }
    }
}

/// CPU share of a hybrid benchmark: the recorded one, or 35
pub open spec fn hybrid_share(recorded: Option<u8>) -> u8 {
    match recorded {
        Some(share) => share,
        None => LEGACY_HYBRID_CPU_SHARE,
    }
}

fn missing_workgroup_message(backend: BackendKind) -> (message: String)
    ensures
        message@ == backend_name(backend) + " benchmark is missing a workgroup size"@,
{
    let mut message = backend.name();
    message.append(" benchmark is missing a workgroup size");
    message
}

/// Manual disposition of a wallet-identity match
#[derive(Debug, Clone, Copy, PartialEq, Eq, Structural)]
pub enum MatchStatus {
    /// Awaiting manual verification on the Coldcard
    Pending,
    /// Rejected as a random four-byte XFP collision
    Rejected,
}

impl MatchStatus {
    /// Name stored in state documents
    pub fn name(self) -> (name: String)
        ensures
            name@ == match self {
                MatchStatus::Pending => "pending"@,
                MatchStatus::Rejected => "rejected"@,
            },
    {
        match self {
            MatchStatus::Pending => owned("pending"),
            MatchStatus::Rejected => owned("rejected"),
        }
    }
}

/// Candidate whose configured wallet identity matched the target
#[derive(Debug, Clone)]
pub struct MatchRecord {
    /// Stable candidate identifier
    pub id: CandidateId,
    /// Phase that produced the candidate
    pub phase: SearchPhase,
    /// Exact no-space passphrase
    pub passphrase: String,
    /// Readable word segmentation
    pub words: Vec<String>,
    /// Current manual-verification status
    pub status: MatchStatus,
}

impl MatchRecord {
    /// Construct a pending match from a tested candidate
    pub fn pending(candidate: &Candidate) -> (record: Self)
        ensures
            record.id.0@ == candidate.id_view().0@,
            record.phase == candidate.phase_view(),
            record.passphrase@ == candidate.passphrase_view()@,
            record.words@ == candidate.words_view(),
            record.status == MatchStatus::Pending,
    {
        MatchRecord {
            id: CandidateId(candidate.id().0.clone()),
            phase: candidate.phase(),
            passphrase: owned(candidate.passphrase()),
            words: copy_strings(candidate.words()),
            status: MatchStatus::Pending,
        }
    }
}

/// Mutable, persisted recovery progress
#[derive(Debug, Clone)]
pub struct RuntimeState {
    /// Cursor pointing to the next unverified candidate
    pub cursor: CandidateCursor,
    /// Recorded backend measurements
    pub benchmarks: Vec<BenchmarkRecord>,
    /// XFP matches and their manual status
    pub matches: Vec<MatchRecord>,
}

impl Default for RuntimeState {
    fn default() -> (state: Self)
        ensures
            state.cursor == initial_cursor(),
            state.benchmarks@.len() == 0,
            state.matches@.len() == 0,
    {
        RuntimeState { cursor: CandidateCursor::default(), benchmarks: Vec::new(), matches: Vec::new() }
    }
}

/// Some record has the identifier
pub open spec fn knows_id(records: Seq<MatchRecord>, id: Seq<char>) -> bool {
    exists|k: int| 0 <= k < records.len() && (#[trigger] records[k]).id.0@ == id
}

/// Some record awaits manual verification
pub open spec fn any_pending(records: Seq<MatchRecord>) -> bool {
    exists|k: int| 0 <= k < records.len() && (#[trigger] records[k]).status == MatchStatus::Pending
}

/// Some record with the identifier was rejected
pub open spec fn rejected_id(records: Seq<MatchRecord>, id: Seq<char>) -> bool {
    exists|k: int|
        0 <= k < records.len() && (#[trigger] records[k]).id.0@ == id && records[k].status == MatchStatus::Rejected
}

/// Known records followed by the new ones whose identifiers are not yet
/// known, in order
pub open spec fn merged_matches(known: Seq<MatchRecord>, new: Seq<MatchRecord>) -> Seq<MatchRecord>
    decreases new.len(),
{
    if new.len() == 0 {
        known
    } else {
        let merged = merged_matches(known, new.drop_last());
        if knows_id(merged, new.last().id.0@) {
            merged
        } else {
            merged.push(new.last())
        }
    }
}

/// Index of the first pending record with the identifier, if any
pub open spec fn first_pending_with(records: Seq<MatchRecord>, id: Seq<char>) -> int
    decreases records.len(),
{
    if records.len() == 0 {
        -1
    } else {
        let earlier = first_pending_with(records.drop_last(), id);
        if earlier >= 0 {
            earlier
        } else if records.last().id.0@ == id && records.last().status == MatchStatus::Pending {
            records.len() - 1
        } else {
            -1
        }
    }
}

/// Index of the last benchmark of a backend, if any
pub open spec fn last_benchmark_of(records: Seq<BenchmarkRecord>, backend: BackendKind) -> int
    decreases records.len(),
{
    if records.len() == 0 {
        -1
    } else if records.last().backend == backend {
        records.len() - 1
    } else {
        last_benchmark_of(records.drop_last(), backend)
    }
}

proof fn lemma_last_benchmark_bounds(records: Seq<BenchmarkRecord>, backend: BackendKind)
    ensures
        -1 <= last_benchmark_of(records, backend) < records.len(),
        last_benchmark_of(records, backend) >= 0 ==> records[last_benchmark_of(records, backend)].backend == backend,
        last_benchmark_of(records, backend) < 0 ==> forall|k: int| 0 <= k < records.len() ==> (#[trigger] records[k]).backend != backend,
    decreases records.len(),
{
    if records.len() > 0 {
        lemma_last_benchmark_bounds(records.drop_last(), backend);
        if records.last().backend != backend {
            assert forall|k: int| 0 <= k < records.len() - 1 implies #[trigger] records[k] == records.drop_last()[k] by {}
        }
    }
}

proof fn lemma_first_pending_bounds(records: Seq<MatchRecord>, id: Seq<char>)
    ensures
        -1 <= first_pending_with(records, id) < records.len(),
        first_pending_with(records, id) >= 0 ==> records[first_pending_with(records, id)].id.0@ == id
            && records[first_pending_with(records, id)].status == MatchStatus::Pending,
        first_pending_with(records, id) < 0 ==> forall|k: int|
            0 <= k < records.len() ==> !((#[trigger] records[k]).id.0@ == id && records[k].status == MatchStatus::Pending),
    decreases records.len(),
{
    if records.len() > 0 {
        lemma_first_pending_bounds(records.drop_last(), id);
        assert forall|k: int| 0 <= k < records.len() - 1 implies #[trigger] records[k] == records.drop_last()[k] by {}
    }
}

impl RuntimeState {
    /// Whether unresolved matches prevent continued searching
    pub fn has_pending_matches(&self) -> (pending: bool)
        ensures
            pending == any_pending(self.matches@),
    {
        let mut i: usize = 0;
        while i < self.matches.len()
            invariant
                i <= self.matches@.len(),
                forall|k: int| 0 <= k < i ==> (#[trigger] self.matches@[k]).status != MatchStatus::Pending,
            decreases self.matches@.len() - i,
        {
            if self.matches[i].status == MatchStatus::Pending {
                return true;
            }
            i = i + 1;
        }
        false
    }

    /// Whether a candidate identifier was already rejected
    pub fn is_rejected(&self, id: &CandidateId) -> (rejected: bool)
        ensures
            rejected == rejected_id(self.matches@, id.0@),
    {
        let mut i: usize = 0;
        while i < self.matches.len()
            invariant
                i <= self.matches@.len(),
                forall|k: int|
                    0 <= k < i ==> !((#[trigger] self.matches@[k]).id.0@ == id.0@ && self.matches@[k].status
                        == MatchStatus::Rejected),
            decreases self.matches@.len() - i,
        {
            if self.matches[i].id.0 == id.0 && self.matches[i].status == MatchStatus::Rejected {
                return true;
            }
            i = i + 1;
        }
        false
    }

    fn knows(&self, id: &CandidateId) -> (known: bool)
        ensures
            known == knows_id(self.matches@, id.0@),
    {
        let mut i: usize = 0;
        while i < self.matches.len()
            invariant
                i <= self.matches@.len(),
                forall|k: int| 0 <= k < i ==> (#[trigger] self.matches@[k]).id.0@ != id.0@,
            decreases self.matches@.len() - i,
        {
            if self.matches[i].id.0 == id.0 {
                return true;
            }
            i = i + 1;
        }
        false
    }

    /// Record a completed chunk: its next cursor, and the matches whose
    /// identifiers are not yet known, in order
    pub fn complete_chunk(&mut self, cursor: CandidateCursor, matches: Vec<MatchRecord>)
        ensures
            final(self).cursor == cursor,
            final(self).matches@ == merged_matches(old(self).matches@, matches@),
            final(self).benchmarks@ == old(self).benchmarks@,
    {
        self.cursor = cursor;
        let ghost known = self.matches@;
        let ghost new = matches@;
        let mut rest = matches;
        let n = rest.len();
        let mut i: usize = 0;
        while rest.len() > 0
            invariant
                n == new.len(),
                i <= new.len(),
                rest@ == new.skip(i as int),
                self.matches@ == merged_matches(known, new.take(i as int)),
                self.cursor == cursor,
                self.benchmarks@ == old(self).benchmarks@,
            decreases rest@.len(),
        {
            let record = rest.remove(0);
            assert(new.take(i + 1).drop_last() =~= new.take(i as int));
            assert(new.take(i + 1).last() == record);
            if !self.knows(&record.id) {
                self.matches.push(record);
            }
            i = i + 1;
            assert(rest@ =~= new.skip(i as int));
        }
        assert(new.take(i as int) =~= new);
    }

    /// Record a backend benchmark in place of earlier ones of its backend
    pub fn record_benchmark(&mut self, benchmark: BenchmarkRecord)
        ensures
            final(self).benchmarks@ == old(self).benchmarks@.filter(|r: BenchmarkRecord| r.backend != benchmark.backend)
                .push(benchmark),
            final(self).cursor == old(self).cursor,
            final(self).matches@ == old(self).matches@,
    {
        let ghost before = self.benchmarks@;
        let backend = benchmark.backend;
        let mut rest: Vec<BenchmarkRecord> = Vec::new();
        std::mem::swap(&mut rest, &mut self.benchmarks);
        let n = rest.len();
        let mut kept: Vec<BenchmarkRecord> = Vec::new();
        let mut i: usize = 0;
        while rest.len() > 0
            invariant
                n == before.len(),
                i <= before.len(),
                rest@ == before.skip(i as int),
                kept@ == before.take(i as int).filter(|r: BenchmarkRecord| r.backend != backend),
            decreases rest@.len(),
        {
            let record = rest.remove(0);
            assert(before.take(i + 1).drop_last() =~= before.take(i as int));
            assert(before.take(i + 1).last() == record);
            proof {
                before.take(i as int).lemma_filter_push(record, |r: BenchmarkRecord| r.backend != backend);
                assert(before.take(i as int).push(record) =~= before.take(i + 1));
            }
            if record.backend != backend {
                kept.push(record);
            }
            i = i + 1;
            assert(rest@ =~= before.skip(i as int));
        }
        assert(before.take(i as int) =~= before);
        kept.push(benchmark);
        self.benchmarks = kept;
    }

    /// Mark the first pending match with the identifier as a false XFP
    /// collision
    pub fn reject_match(&mut self, id: &str) -> (result: Result<(), RecoverError>)
        ensures
            final(self).cursor == old(self).cursor,
            final(self).benchmarks@ == old(self).benchmarks@,
            first_pending_with(old(self).matches@, id@) < 0 ==> (result matches Err(RecoverError::MatchNotFound(shown))
                && shown@ == id@ && final(self).matches@ == old(self).matches@),
            first_pending_with(old(self).matches@, id@) >= 0 ==> result is Ok && {
                let k = first_pending_with(old(self).matches@, id@);
                let r = old(self).matches@[k];
                final(self).matches@ == old(self).matches@.update(
                    k,
                    MatchRecord { status: MatchStatus::Rejected, ..r },
                )
            },
    {
        proof {
            lemma_first_pending_bounds(self.matches@, id@);
        }
        let wanted = owned(id);
        let ghost before = self.matches@;
        let mut i: usize = 0;
        while i < self.matches.len()
            invariant
                wanted@ == id@,
                before == self.matches@,
                before == old(self).matches@,
                self.cursor == old(self).cursor,
                self.benchmarks@ == old(self).benchmarks@,
                i <= before.len(),
                forall|k: int| 0 <= k < i ==> !((#[trigger] before[k]).id.0@ == id@ && before[k].status == MatchStatus::Pending),
            decreases before.len() - i,
        {
            if self.matches[i].id.0 == wanted && self.matches[i].status == MatchStatus::Pending {
                proof {
                    lemma_first_pending_index(before, id@, i as int);
                }
                let mut record = self.matches.remove(i);
                record.status = MatchStatus::Rejected;
                self.matches.insert(i, record);
                assert(self.matches@ =~= before.update(i as int, MatchRecord { status: MatchStatus::Rejected, ..before[i as int] }));
                return Ok(());
            }
            i = i + 1;
        }
        Err(RecoverError::MatchNotFound(wanted))
    }

    /// Most recent benchmark for a backend
    pub fn latest_benchmark(&self, backend: BackendKind) -> (latest: Option<&BenchmarkRecord>)
        ensures
            last_benchmark_of(self.benchmarks@, backend) < 0 ==> latest is None,
            last_benchmark_of(self.benchmarks@, backend) >= 0 ==> latest == Some(
                &self.benchmarks@[last_benchmark_of(self.benchmarks@, backend)],
            ),
    {
        proof {
            lemma_last_benchmark_bounds(self.benchmarks@, backend);
            assert(self.benchmarks@.take(self.benchmarks@.len() as int) =~= self.benchmarks@);
        }
        let mut i: usize = self.benchmarks.len();
        while i > 0
            invariant
                i <= self.benchmarks@.len(),
                last_benchmark_of(self.benchmarks@, backend) == last_benchmark_of(self.benchmarks@.take(i as int), backend),
            decreases i,
        {
            assert(self.benchmarks@.take(i as int).drop_last() =~= self.benchmarks@.take(i - 1));
            if self.benchmarks[i - 1].backend == backend {
                return Some(&self.benchmarks[i - 1]);
            }
            i = i - 1;
        }
        None
    }
}

proof fn lemma_first_pending_index(records: Seq<MatchRecord>, id: Seq<char>, i: int)
    requires
        0 <= i < records.len(),
        records[i].id.0@ == id && records[i].status == MatchStatus::Pending,
        forall|k: int| 0 <= k < i ==> !((#[trigger] records[k]).id.0@ == id && records[k].status == MatchStatus::Pending),
    ensures
        first_pending_with(records, id) == i,
    decreases records.len(),
{
    if i < records.len() - 1 {
        lemma_first_pending_index(records.drop_last(), id, i);
    } else {
        lemma_first_pending_bounds(records.drop_last(), id);
        if first_pending_with(records.drop_last(), id) >= 0 {
            let k = first_pending_with(records.drop_last(), id);
            assert(records.drop_last()[k] == records[k]);
        }
    }
}

/// Manifest and runtime state of one protected state directory
///
/// Changes are made in memory; the caller persists the runtime document
/// after each change.
pub struct RecoveryState {
    directory: String,
    manifest: RecoveryManifest,
    runtime: RuntimeState,
}

impl RecoveryState {
    pub closed spec fn directory_view(&self) -> Seq<char> {
        self.directory@
    }

    pub closed spec fn manifest_view(&self) -> RecoveryManifest {
        self.manifest
    }

    pub closed spec fn runtime_view(&self) -> RuntimeState {
        self.runtime
    }

    /// State read from, or created in, a directory
    pub fn from_parts(directory: String, manifest: RecoveryManifest, runtime: RuntimeState) -> (state: Self)
        ensures
            state.directory_view() == directory@,
            state.manifest_view() == manifest,
            state.runtime_view() == runtime,
    {
        RecoveryState { directory, manifest, runtime }
    }

    /// Directory that holds the state documents
    pub fn directory(&self) -> (directory: &str)
        ensures
            directory@ == self.directory_view(),
    {
        self.directory.as_str()
    }

    /// Immutable recovery manifest
    pub fn manifest(&self) -> (manifest: &RecoveryManifest)
        ensures
            *manifest == self.manifest_view(),
    {
        &self.manifest
    }

    /// Validated wallet identity used by recovery backends
    pub fn verification_target(&self) -> (result: Result<VerificationTarget, RecoverError>)
        ensures
            match self.manifest_view().master_xpub {
                None => result == Ok::<VerificationTarget, RecoverError>(
                    VerificationTarget::Fingerprint(self.manifest_view().target_fingerprint),
                ),
                Some(xpub) => if xpub.fingerprint_view() == self.manifest_view().target_fingerprint.view_bytes() {
                    result matches Ok(VerificationTarget::MasterXpub { fingerprint, master_xpub }) && fingerprint
                        == self.manifest_view().target_fingerprint && same_master_xpub(Some(master_xpub), Some(xpub))
                } else {
                    result == Err::<VerificationTarget, RecoverError>(RecoverError::MasterXpubFingerprintMismatch)
                },
            },
    {
        self.manifest.verification_target()
    }

    /// Runtime progress
    pub fn runtime(&self) -> (runtime: &RuntimeState)
        ensures
            *runtime == self.runtime_view(),
    {
        &self.runtime
    }

    /// The next-candidate cursor
    pub fn cursor(&self) -> (cursor: CandidateCursor)
        ensures
            cursor == self.runtime_view().cursor,
    {
        self.runtime.cursor
    }

    /// Whether unresolved matches prevent continued searching
    pub fn has_pending_matches(&self) -> (pending: bool)
        ensures
            pending == any_pending(self.runtime_view().matches@),
    {
        self.runtime.has_pending_matches()
    }

    /// Whether a candidate identifier was already rejected
    pub fn is_rejected(&self, id: &CandidateId) -> (rejected: bool)
        ensures
            rejected == rejected_id(self.runtime_view().matches@, id.0@),
    {
        self.runtime.is_rejected(id)
    }

    /// Record a completed chunk, its matches not yet known, and its next cursor
    pub fn complete_chunk(&mut self, cursor: CandidateCursor, matches: Vec<MatchRecord>)
        ensures
            final(self).runtime_view().cursor == cursor,
            final(self).runtime_view().matches@ == merged_matches(old(self).runtime_view().matches@, matches@),
            final(self).runtime_view().benchmarks@ == old(self).runtime_view().benchmarks@,
            final(self).manifest_view() == old(self).manifest_view(),
            final(self).directory_view() == old(self).directory_view(),
    {
        self.runtime.complete_chunk(cursor, matches);
    }

    /// Record a backend benchmark in place of earlier ones of its backend
    pub fn record_benchmark(&mut self, benchmark: BenchmarkRecord)
        ensures
            final(self).runtime_view().benchmarks@ == old(self).runtime_view().benchmarks@.filter(
                |r: BenchmarkRecord| r.backend != benchmark.backend,
            ).push(benchmark),
            final(self).runtime_view().cursor == old(self).runtime_view().cursor,
            final(self).runtime_view().matches@ == old(self).runtime_view().matches@,
            final(self).manifest_view() == old(self).manifest_view(),
            final(self).directory_view() == old(self).directory_view(),
    {
        self.runtime.record_benchmark(benchmark);
    }

    /// Mark one pending candidate as a false XFP collision
    pub fn reject_match(&mut self, id: &str) -> (result: Result<(), RecoverError>)
        ensures
            final(self).runtime_view().cursor == old(self).runtime_view().cursor,
            final(self).runtime_view().benchmarks@ == old(self).runtime_view().benchmarks@,
            final(self).manifest_view() == old(self).manifest_view(),
            final(self).directory_view() == old(self).directory_view(),
            first_pending_with(old(self).runtime_view().matches@, id@) < 0 ==> (result matches Err(
                RecoverError::MatchNotFound(shown),
            ) && shown@ == id@ && final(self).runtime_view().matches@ == old(self).runtime_view().matches@),
            first_pending_with(old(self).runtime_view().matches@, id@) >= 0 ==> result is Ok && {
                let k = first_pending_with(old(self).runtime_view().matches@, id@);
                let r = old(self).runtime_view().matches@[k];
                final(self).runtime_view().matches@ == old(self).runtime_view().matches@.update(
                    k,
                    MatchRecord { status: MatchStatus::Rejected, ..r },
                )
            },
    {
        self.runtime.reject_match(id)
    }

    /// Most recent benchmark for a backend
    pub fn latest_benchmark(&self, backend: BackendKind) -> (latest: Option<&BenchmarkRecord>)
        ensures
            last_benchmark_of(self.runtime_view().benchmarks@, backend) < 0 ==> latest is None,
            last_benchmark_of(self.runtime_view().benchmarks@, backend) >= 0 ==> latest == Some(
                &self.runtime_view().benchmarks@[last_benchmark_of(self.runtime_view().benchmarks@, backend)],
            ),
    {
        self.runtime.latest_benchmark(backend)
    }
}

/// After a benchmark is recorded, it is the latest benchmark of its backend
/// and the only one of that backend
pub proof fn lemma_recorded_benchmark_is_latest(records: Seq<BenchmarkRecord>, benchmark: BenchmarkRecord)
    ensures
        ({
            let after = records.filter(|r: BenchmarkRecord| r.backend != benchmark.backend).push(benchmark);
            &&& last_benchmark_of(after, benchmark.backend) == after.len() - 1
            &&& after[after.len() - 1] == benchmark
            &&& forall|k: int| 0 <= k < after.len() - 1 ==> (#[trigger] after[k]).backend != benchmark.backend
        }),
{
    let kept = records.filter(|r: BenchmarkRecord| r.backend != benchmark.backend);
    let after = kept.push(benchmark);
    assert forall|k: int| 0 <= k < after.len() - 1 implies (#[trigger] after[k]).backend != benchmark.backend by {
        assert(after[k] == kept[k]);
        assert(kept.contains(kept[k]));
        records.filter_lemma(|r: BenchmarkRecord| r.backend != benchmark.backend);
    }
}

/// Completing a chunk keeps every known match unchanged and in place, and
/// afterwards every new match's identifier is known
pub proof fn lemma_completed_chunk_keeps_matches(known: Seq<MatchRecord>, new: Seq<MatchRecord>)
    ensures
        merged_matches(known, new).len() >= known.len(),
        merged_matches(known, new).take(known.len() as int) == known,
        forall|i: int| 0 <= i < new.len() ==> knows_id(merged_matches(known, new), (#[trigger] new[i]).id.0@),
    decreases new.len(),
{
    if new.len() > 0 {
        let before = merged_matches(known, new.drop_last());
        lemma_completed_chunk_keeps_matches(known, new.drop_last());
        let merged = merged_matches(known, new);
        if !knows_id(before, new.last().id.0@) {
            assert(merged.take(known.len() as int) =~= before.take(known.len() as int));
            assert(merged[merged.len() - 1] == new.last());
        }
        assert forall|i: int| 0 <= i < new.len() implies knows_id(merged, (#[trigger] new[i]).id.0@) by {
            if i < new.len() - 1 {
                assert(new.drop_last()[i] == new[i]);
                assert(knows_id(before, new[i].id.0@));
                let k = choose|k: int| 0 <= k < before.len() && (#[trigger] before[k]).id.0@ == new[i].id.0@;
                assert(merged[k] == before[k]);
            } else if !knows_id(before, new.last().id.0@) {
                assert(merged[merged.len() - 1] == new.last());
            }
        }
    }
}

/// After a pending match is rejected, its identifier is rejected
pub proof fn lemma_rejected_match_is_rejected(matches: Seq<MatchRecord>, id: Seq<char>)
    requires
        first_pending_with(matches, id) >= 0,
    ensures
        ({
            let k = first_pending_with(matches, id);
            rejected_id(matches.update(k, MatchRecord { status: MatchStatus::Rejected, ..matches[k] }), id)
        }),
{
    lemma_first_pending_bounds(matches, id);
    let k = first_pending_with(matches, id);
    let after = matches.update(k, MatchRecord { status: MatchStatus::Rejected, ..matches[k] });
    assert(after[k].id.0@ == id && after[k].status == MatchStatus::Rejected);
}

} // verus!
