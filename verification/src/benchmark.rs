//! Decisions of sustained end-to-end backend measurements

use vstd::prelude::*;

use crate::domain::{CandidateBatch, CandidateCursor, VerificationTarget};
use crate::error::RecoverError;
use crate::phase::{phase_name, spec_replacement_count, SearchPhase};
use crate::search::{counted_through, RecoveryPlan};
use crate::text::owned;

verus! {

/// Wallet identity comparison performed by a benchmark
#[derive(Debug, Clone, Copy, PartialEq, Eq, Structural)]
pub enum VerificationMode {
    /// Compare the four-byte master fingerprint
    Fingerprint,
    /// Filter by chain code and confirm the complete master public key
    MasterXpub,
}

impl VerificationMode {
    /// Identify the comparison mode represented by a verification target
    pub fn from_target(target: &VerificationTarget) -> (mode: Self)
        ensures
            mode == match *target {
                VerificationTarget::Fingerprint(_) => VerificationMode::Fingerprint,
                VerificationTarget::MasterXpub { .. } => VerificationMode::MasterXpub,
            },
    {
        match target {
            VerificationTarget::Fingerprint(_) => VerificationMode::Fingerprint,
            VerificationTarget::MasterXpub { .. } => VerificationMode::MasterXpub,
        }
    }

    /// Name shown in reports
    pub fn name(self) -> (name: String)
        ensures
            name@ == match self {
                VerificationMode::Fingerprint => "xfp"@,
                VerificationMode::MasterXpub => "master-xpub"@,
            },
    {
        match self {
            VerificationMode::Fingerprint => owned("xfp"),
            VerificationMode::MasterXpub => owned("master-xpub"),
        }
    }
}

/// Configuration for a sustained end-to-end backend measurement
#[derive(Debug, Clone, Copy, PartialEq, Eq, Structural)]
pub struct SustainedBenchmarkConfig {
    /// Candidates checked in each timed iteration
    pub sample_size: usize,
    /// Number of timed pipeline iterations
    pub repetitions: usize,
    /// Candidate batch size configured on the backend
    pub batch_size: usize,
    /// Accelerator workgroup size when applicable
    pub workgroup_size: Option<u32>,
    /// Last recovery phase included in candidate generation
    pub through: SearchPhase,
}

impl SustainedBenchmarkConfig {
    /// Sizes and counts are positive
    pub open spec fn well_formed(self) -> bool {
        &&& self.sample_size > 0
        &&& self.repetitions > 0
        &&& self.batch_size > 0
        &&& self.workgroup_size matches Some(w) ==> w > 0
    }

    /// A configuration with positive sizes and counts; `InvalidSetting`
    /// when one of them is zero
    pub fn new(
        sample_size: usize,
        repetitions: usize,
        batch_size: usize,
        workgroup_size: Option<u32>,
        through: SearchPhase,
    ) -> (result: Result<Self, RecoverError>)
        ensures
            match result {
                Ok(config) => config.well_formed() && config.sample_size == sample_size && config.repetitions
                    == repetitions && config.batch_size == batch_size && config.workgroup_size == workgroup_size
                    && config.through == through,
                Err(error) => error is InvalidSetting,
            },
            result is Ok <==> (sample_size > 0 && repetitions > 0 && batch_size > 0 && !(workgroup_size
                == Some(0u32))),
    {
        let zero_workgroup = match workgroup_size {
            Some(w) => w == 0,
            None => false,
        };
        if sample_size == 0 || repetitions == 0 || batch_size == 0 || zero_workgroup {
            return Err(RecoverError::InvalidSetting(owned("sustained benchmark sizes must be positive")));
        }
        Ok(SustainedBenchmarkConfig { sample_size, repetitions, batch_size, workgroup_size, through })
    }
}

/// Check that a plan can fill the warmup batch and every timed batch
///
/// The plan's count through the configured phase is taken first; then one
/// sample per repetition plus the warmup must fit in it.
pub fn sustained_capacity(plan: &RecoveryPlan, config: &SustainedBenchmarkConfig) -> (result: Result<usize, RecoverError>)
    requires
        config.well_formed(),
    ensures
        spec_replacement_count(config.through) > plan.settings_view().max_replacements ==> (result matches Err(
            RecoverError::DisabledPhase(name),
        ) && name@ == phase_name(config.through)),
        spec_replacement_count(config.through) <= plan.settings_view().max_replacements ==> {
            let available = counted_through(plan.summaries_view(), config.through);
            let required = config.sample_size * (config.repetitions + 1);
            if available > u128::MAX {
                result == Err::<usize, RecoverError>(RecoverError::CountOverflow)
            } else if required > usize::MAX {
                result == Err::<usize, RecoverError>(
                    RecoverError::InsufficientBenchmarkCandidates { required: usize::MAX, available: available as u128 },
                )
            } else if available < required {
                result == Err::<usize, RecoverError>(
                    RecoverError::InsufficientBenchmarkCandidates {
                        required: required as usize,
                        available: available as u128,
                    },
                )
            } else {
                result == Ok::<usize, RecoverError>(required as usize)
            }
        },
{
    let available = match plan.count_through(config.through) {
        Ok(available) => available,
        Err(error) => return Err(error),
    };
    let measured_batches = match config.repetitions.checked_add(1) {
        Some(batches) => batches,
        None => {
            proof {
                let s = config.sample_size as int;
                let r = config.repetitions as int;
                assert(s * (r + 1) >= r + 1) by (nonlinear_arith)
                    requires
                        s >= 1,
                        r >= 0,
                ;
            }
            return Err(RecoverError::InsufficientBenchmarkCandidates { required: usize::MAX, available });
        },
    };
    let required = match config.sample_size.checked_mul(measured_batches) {
        Some(required) => required,
        None => {
            proof {
                assert(config.sample_size * (config.repetitions + 1) > usize::MAX);
            }
            return Err(RecoverError::InsufficientBenchmarkCandidates { required: usize::MAX, available });
        },
    };
    if available < required as u128 {
        return Err(RecoverError::InsufficientBenchmarkCandidates { required, available });
    }
    Ok(required)
}

/// The next batch of exactly `sample_size` candidates
pub fn next_exact_batch(plan: &RecoveryPlan, cursor: &mut CandidateCursor, through: SearchPhase, sample_size: usize) -> (result:
    Result<CandidateBatch, RecoverError>)
    requires
        plan.valid(),
    ensures
        spec_replacement_count(through) > plan.settings_view().max_replacements ==> (result matches Err(
            RecoverError::DisabledPhase(name),
        ) && name@ == phase_name(through)),
        result matches Ok(batch) ==> {
            &&& batch.candidates_view().len() == sample_size
            &&& batch.packs()
            &&& final(cursor).completed == old(cursor).completed + sample_size
            &&& forall|i: int|
                0 <= i < sample_size ==> crate::phase::phase_le(
                    (#[trigger] batch.candidates_view()[i]).phase_view(),
                    through,
                ) && plan.produces(
                    batch.candidates_view()[i].phase_view(),
                    crate::text::utf8_all(batch.candidates_view()[i].words_view()),
                    crate::text::utf8(batch.candidates_view()[i].passphrase_view()),
                )
        },
        result matches Err(error) ==> error == RecoverError::CountOverflow || error is DisabledPhase || error
            is SeedDerivation || (error matches RecoverError::InsufficientBenchmarkCandidates { required, available }
            && required == sample_size && available < sample_size && available
            == final(cursor).completed - old(cursor).completed),
{
    let candidates = match plan.next_batch(cursor, through, sample_size) {
        Ok(candidates) => candidates,
        Err(error) => return Err(error),
    };
    if candidates.len() != sample_size {
        return Err(
            RecoverError::InsufficientBenchmarkCandidates { required: sample_size, available: candidates.len() as u128 },
        );
    }
    CandidateBatch::new(candidates)
}

} // verus!
