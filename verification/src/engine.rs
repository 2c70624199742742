//! Decisions of a recovery run: which candidates a chunk tests, what its
//! matches record, and how a run ends

use vstd::prelude::*;

use crate::crypto::CpuSeedDeriver;
use crate::domain::{
    batch_stride, passphrase_lengths, Candidate, CandidateBatch, CandidateCursor, CandidateId, initial_cursor,
};
use crate::error::RecoverError;
use crate::phase::{phase_name, spec_replacement_count, SearchPhase};
use crate::search::RecoveryPlan;
use crate::settings::DEFAULT_MAX_PASSPHRASE_BYTES;
use crate::state::{BenchmarkRecord, MatchRecord, MatchStatus, RuntimeState};
use crate::text::owned;

verus! {

/// Terminal reason returned by a recovery run
#[derive(Debug, Clone, Copy, PartialEq, Eq, Structural)]
pub enum RunOutcome {
    /// Every requested phase was exhausted without a pending match
    Exhausted,
    /// The user requested a clean stop between chunks
    Interrupted,
    /// One or more wallet candidates were recorded for manual verification
    MatchesFound(usize),
}

/// Identifiers of the matches that were rejected, in record order
pub fn rejected_ids(runtime: &RuntimeState) -> (ids: Vec<CandidateId>)
    ensures
        forall|k: int| 0 <= k < ids@.len() ==> crate::state::rejected_id(runtime.matches@, (#[trigger] ids@[k]).0@),
        forall|j: int|
            0 <= j < runtime.matches@.len() && (#[trigger] runtime.matches@[j]).status == MatchStatus::Rejected
                ==> exists|k: int| 0 <= k < ids@.len() && ids@[k].0@ == runtime.matches@[j].id.0@,
{
    let mut ids: Vec<CandidateId> = Vec::new();
    let mut i: usize = 0;
    while i < runtime.matches.len()
        invariant
            i <= runtime.matches@.len(),
            forall|k: int| 0 <= k < ids@.len() ==> crate::state::rejected_id(runtime.matches@, (#[trigger] ids@[k]).0@),
            forall|j: int|
                0 <= j < i && (#[trigger] runtime.matches@[j]).status == MatchStatus::Rejected ==> exists|k: int|
                    0 <= k < ids@.len() && ids@[k].0@ == runtime.matches@[j].id.0@,
        decreases runtime.matches@.len() - i,
    {
        let ghost before = ids@;
        if runtime.matches[i].status == MatchStatus::Rejected {
            ids.push(CandidateId(runtime.matches[i].id.0.clone()));
            proof {
                assert(ids@[ids@.len() - 1].0@ == runtime.matches@[i as int].id.0@);
            }
        }
        proof {
            assert forall|j: int|
                0 <= j < i + 1 && (#[trigger] runtime.matches@[j]).status == MatchStatus::Rejected implies exists|k: int|
                    0 <= k < ids@.len() && ids@[k].0@ == runtime.matches@[j].id.0@ by {
                if j < i {
                    let k = choose|k: int| 0 <= k < before.len() && before[k].0@ == runtime.matches@[j].id.0@;
                    assert(ids@[k] == before[k]);
                } else {
                    assert(ids@[ids@.len() - 1].0@ == runtime.matches@[j].id.0@);
                }
            }
        }
        i = i + 1;
    }
    ids
}

fn listed(ids: &Vec<CandidateId>, id: &CandidateId) -> (found: bool)
    ensures
        found == exists|k: int| 0 <= k < ids@.len() && (#[trigger] ids@[k]).0@ == id.0@,
{
    let mut i: usize = 0;
    while i < ids.len()
        invariant
            i <= ids@.len(),
            forall|k: int| 0 <= k < i ==> (#[trigger] ids@[k]).0@ != id.0@,
        decreases ids@.len() - i,
    {
        if ids[i].0 == id.0 {
            return true;
        }
        i = i + 1;
    }
    false
}

/// A chunk of candidates to verify and the cursor after it
pub struct PreparedBatch {
    /// Candidates to verify, the rejected ones left out
    pub batch: CandidateBatch,
    /// Cursor after every candidate of the chunk
    pub next_cursor: CandidateCursor,
    /// The plan had no candidate left
    pub exhausted: bool,
}

/// The candidates of a chunk that are not rejected, in order
pub open spec fn unrejected(candidates: Seq<Candidate>, rejected: Seq<CandidateId>) -> Seq<Candidate> {
    candidates.filter(|c: Candidate| !(exists|k: int| 0 <= k < rejected.len() && rejected[k].0@ == c.id_view().0@))
}

/// Generate the next chunk of up to `batch_size` candidates from a cursor and
/// leave out those already rejected
pub fn prepare_batch(
    plan: &RecoveryPlan,
    cursor: CandidateCursor,
    through: SearchPhase,
    batch_size: usize,
    rejected: &Vec<CandidateId>,
) -> (result: Result<PreparedBatch, RecoverError>)
    requires
        plan.valid(),
    ensures
        spec_replacement_count(through) > plan.settings_view().max_replacements ==> (result matches Err(
            RecoverError::DisabledPhase(name),
        ) && name@ == phase_name(through)),
        result matches Ok(prepared) ==> exists|generated: Seq<Candidate>|
            {
                &&& generated.len() <= batch_size
                &&& prepared.exhausted == (generated.len() == 0)
                &&& prepared.next_cursor.completed == cursor.completed + generated.len()
                &&& prepared.batch.candidates_view() == unrejected(generated, rejected@)
                &&& prepared.batch.packs()
                &&& forall|i: int|
                    0 <= i < generated.len() ==> crate::phase::phase_le((#[trigger] generated[i]).phase_view(), through)
                        && plan.produces(
                        generated[i].phase_view(),
                        crate::text::utf8_all(generated[i].words_view()),
                        crate::text::utf8(generated[i].passphrase_view()),
                    )
            },
        result matches Ok(prepared) ==> (prepared.exhausted && batch_size > 0 ==> plan.finished(
            prepared.next_cursor,
            through,
        )),
        plan.finished(cursor, through) && spec_replacement_count(through) <= plan.settings_view().max_replacements ==> (
        result matches Ok(prepared) && prepared.exhausted && prepared.next_cursor == cursor
            && prepared.batch.candidates_view().len() == 0),
        result matches Err(error) ==> error == RecoverError::CountOverflow || error is DisabledPhase || error
            is SeedDerivation,
{
    let mut next_cursor = cursor;
    let candidates = match plan.next_batch(&mut next_cursor, through, batch_size) {
        Ok(candidates) => candidates,
        Err(error) => return Err(error),
    };
    let ghost generated = candidates@;
    let exhausted = candidates.len() == 0;
    let ghost pred = |c: Candidate| !(exists|k: int| 0 <= k < rejected@.len() && rejected@[k].0@ == c.id_view().0@);
    let mut rest = candidates;
    let n = rest.len();
    let mut kept: Vec<Candidate> = Vec::new();
    let mut i: usize = 0;
    while rest.len() > 0
        invariant
            n == generated.len(),
            i <= generated.len(),
            rest@ == generated.skip(i as int),
            kept@ == generated.take(i as int).filter(pred),
            pred == (|c: Candidate| !(exists|k: int| 0 <= k < rejected@.len() && rejected@[k].0@ == c.id_view().0@)),
        decreases rest@.len(),
    {
        let candidate = rest.remove(0);
        proof {
            assert(generated.take(i + 1).drop_last() =~= generated.take(i as int));
            assert(generated.take(i + 1).last() == candidate);
            generated.take(i as int).lemma_filter_push(candidate, pred);
            assert(generated.take(i as int).push(candidate) =~= generated.take(i + 1));
        }
        if !listed(rejected, candidate.id()) {
            kept.push(candidate);
        }
        i = i + 1;
        assert(rest@ =~= generated.skip(i as int));
    }
    assert(generated.take(i as int) =~= generated);
    let batch = match CandidateBatch::new(kept) {
        Ok(batch) => batch,
        Err(error) => return Err(error),
    };
    Ok(PreparedBatch { batch, next_cursor, exhausted })
}

/// Pending match records for the candidates of a batch at the given indices
pub fn pending_matches(batch: &CandidateBatch, indices: &Vec<usize>) -> (records: Vec<MatchRecord>)
    requires
        forall|k: int| 0 <= k < indices@.len() ==> #[trigger] indices@[k] < batch.candidates_view().len(),
    ensures
        records@.len() == indices@.len(),
        forall|k: int|
            0 <= k < indices@.len() ==> {
                let candidate = batch.candidates_view()[indices@[k] as int];
                &&& (#[trigger] records@[k]).id.0@ == candidate.id_view().0@
                &&& records@[k].phase == candidate.phase_view()
                &&& records@[k].passphrase@ == candidate.passphrase_view()@
                &&& records@[k].words@ == candidate.words_view()
                &&& records@[k].status == MatchStatus::Pending
            },
{
    let candidates = batch.candidates();
    let mut records: Vec<MatchRecord> = Vec::new();
    let mut k: usize = 0;
    while k < indices.len()
        invariant
            candidates@ == batch.candidates_view(),
            forall|j: int| 0 <= j < indices@.len() ==> #[trigger] indices@[j] < batch.candidates_view().len(),
            k <= indices@.len(),
            records@.len() == k,
            forall|j: int|
                0 <= j < k ==> {
                    let candidate = batch.candidates_view()[indices@[j] as int];
                    &&& (#[trigger] records@[j]).id.0@ == candidate.id_view().0@
                    &&& records@[j].phase == candidate.phase_view()
                    &&& records@[j].passphrase@ == candidate.passphrase_view()@
                    &&& records@[j].words@ == candidate.words_view()
                    &&& records@[j].status == MatchStatus::Pending
                },
        decreases indices@.len() - k,
    {
        let index = indices[k];
        records.push(MatchRecord::pending(&candidates[index]));
        k = k + 1;
    }
    records
}

/// How a run ends after a chunk is checkpointed: with the number of its
/// matches when there were any, otherwise not yet
pub fn chunk_outcome(match_count: usize) -> (outcome: Option<RunOutcome>)
    ensures
        outcome == if match_count > 0 {
            Some(RunOutcome::MatchesFound(match_count))
        } else {
            None::<RunOutcome>
        },
{
    if match_count > 0 {
        Some(RunOutcome::MatchesFound(match_count))
    } else {
        None
    }
}

/// Batch size for a run: the backend's preferred size, at least one
pub fn run_batch_size(preferred: usize) -> (size: usize)
    ensures
        size == if preferred == 0 {
            1
        } else {
            preferred
        },
{
    if preferred == 0 {
        1
    } else {
        preferred
    }
}

/// Apply the latest benchmark's batch and workgroup sizes to a deriver
pub fn apply_benchmark(deriver: &mut CpuSeedDeriver, benchmark: Option<&BenchmarkRecord>) -> (result: Result<
    (),
    RecoverError,
>)
    ensures
        final(deriver).mnemonic_view() == old(deriver).mnemonic_view(),
        match benchmark {
            None => result is Ok && final(deriver).batch_size_view() == old(deriver).batch_size_view(),
            Some(b) => {
                &&& result is Ok <==> b.batch_size > 0 && b.workgroup_size is None
                &&& result is Ok ==> final(deriver).batch_size_view() == b.batch_size
                &&& result is Err ==> final(deriver).batch_size_view() == old(deriver).batch_size_view()
            },
        },
{
    match benchmark {
        Some(b) => deriver.configure(b.batch_size, b.workgroup_size),
        None => Ok(()),
    }
}

/// Configure a deriver for a benchmark: an explicit batch size with the
/// optional workgroup size, or the preferred batch size with an explicit
/// workgroup size, or nothing
pub fn configure_for_benchmark(deriver: &mut CpuSeedDeriver, batch_size: Option<usize>, workgroup_size: Option<u32>) -> (result:
    Result<(), RecoverError>)
    ensures
        final(deriver).mnemonic_view() == old(deriver).mnemonic_view(),
        match batch_size {
            Some(size) => {
                &&& result is Ok <==> size > 0 && workgroup_size is None
                &&& result is Ok ==> final(deriver).batch_size_view() == size
                &&& result is Err ==> final(deriver).batch_size_view() == old(deriver).batch_size_view()
            },
            None => {
                &&& result is Ok <==> workgroup_size is None
                &&& final(deriver).batch_size_view() == old(deriver).batch_size_view()
            },
        },
        result matches Err(error) ==> error is InvalidSetting,
{
    match batch_size {
        Some(size) => deriver.configure(size, workgroup_size),
        None => {
            if workgroup_size.is_some() {
                let preferred = deriver.preferred_batch_size();
                deriver.configure(preferred, workgroup_size)
            } else {
                Ok(())
            }
        },
    }
}

/// The candidates of a benchmark: the first `sample_size` (at least one) of
/// the written phases
pub fn benchmark_sample(plan: &RecoveryPlan, sample_size: usize) -> (result: Result<
    (CandidateBatch, CandidateCursor),
    RecoverError,
>)
    requires
        plan.valid(),
    ensures
        result matches Ok((batch, cursor)) ==> {
            &&& 0 < batch.candidates_view().len() <= if sample_size == 0 {
                1
            } else {
                sample_size
            }
            &&& batch.packs()
            &&& cursor.completed == batch.candidates_view().len()
        },
        result matches Err(error) ==> error == RecoverError::CountOverflow || error is SeedDerivation,
{
    let size = run_batch_size(sample_size);
    let mut cursor = CandidateCursor::default();
    let candidates = match plan.next_batch(&mut cursor, SearchPhase::WrittenCase, size) {
        Ok(candidates) => candidates,
        Err(error) => return Err(error),
    };
    if candidates.len() == 0 {
        return Err(RecoverError::SeedDerivation(owned("recovery plan produced no benchmark candidates")));
    }
    let batch = match CandidateBatch::new(candidates) {
        Ok(batch) => batch,
        Err(error) => return Err(error),
    };
    Ok((batch, cursor))
}

/// The warmup batch of a benchmark: its first candidates, as many as the
/// smallest of the batch's length, the preferred batch size and four
pub fn warmup_batch(candidates: &CandidateBatch, preferred: usize) -> (result: Result<CandidateBatch, RecoverError>)
    requires
        candidates.packs(),
    ensures
        result matches Ok(warmup) && {
            let count = vstd::math::min(
                candidates.candidates_view().len() as int,
                vstd::math::min(preferred as int, 4),
            );
            &&& warmup.candidates_view().len() == count
            &&& warmup.packs()
            &&& forall|i: int|
                0 <= i < count ==> (#[trigger] warmup.candidates_view()[i]).id_view() == candidates.candidates_view()[i].id_view()
                    && warmup.candidates_view()[i].passphrase_view() == candidates.candidates_view()[i].passphrase_view()
                    && warmup.candidates_view()[i].words_view() == candidates.candidates_view()[i].words_view()
                    && warmup.candidates_view()[i].phase_view() == candidates.candidates_view()[i].phase_view()
        },
{
    let all = candidates.candidates();
    let mut count = if preferred < 4 {
        preferred
    } else {
        4
    };
    if all.len() < count {
        count = all.len();
    }
    let mut copies: Vec<Candidate> = Vec::new();
    let mut i: usize = 0;
    while i < count
        invariant
            all@ == candidates.candidates_view(),
            count <= all@.len(),
            i <= count,
            copies@.len() == i,
            forall|j: int|
                0 <= j < i ==> (#[trigger] copies@[j]).id_view() == all@[j].id_view() && copies@[j].passphrase_view()
                    == all@[j].passphrase_view() && copies@[j].words_view() == all@[j].words_view()
                    && copies@[j].phase_view() == all@[j].phase_view(),
        decreases count - i,
    {
        copies.push(all[i].copy());
        i = i + 1;
    }
    proof {
        crate::domain::lemma_packed_prefix_fits(candidates.candidates_view(), copies@);
    }
    CandidateBatch::new(copies)
}

} // verus!
