//! Decisions and CPU work of a mnemonic recovery run

use vstd::prelude::*;

use crate::bignat::BigNat;
use crate::crypto::{
    derive_seed, matching_candidate_indices_for_target, seed_check_fails, seed_matches_target, seed_of, SeedBatch,
};
use crate::domain::VerificationTarget;
use crate::error::RecoverError;
use crate::mnemonic::{candidate_of_rank, rank_yields, MnemonicCandidate, MnemonicCursor, MnemonicPlan, SecretPassphrase};
use crate::mnemonic_state::MnemonicMatchRecord;
use crate::state::MatchStatus;
use vstd::utf8::encode_utf8;

verus! {

/// Terminal reason returned by a mnemonic recovery run
#[derive(Debug, Clone, Copy, PartialEq, Eq, Structural)]
pub enum MnemonicRunOutcome {
    /// Every entropy assignment was exhausted
    Exhausted,
    /// The user requested a clean stop between batches
    Interrupted,
    /// Strong wallet-identity matches were recorded
    MatchesFound(usize),
}

/// CPU seed derivation of mnemonic candidates under a known passphrase
pub struct MnemonicCpuBackend {
    passphrase: Vec<u8>,
    batch_size: usize,
}

impl MnemonicCpuBackend {
    pub closed spec fn passphrase_view(&self) -> Seq<u8> {
        self.passphrase@
    }

    pub closed spec fn batch_size_view(&self) -> usize {
        self.batch_size
    }

    /// A backend for the passphrase; the batch size is at least one
    pub fn new(passphrase: &SecretPassphrase, batch_size: usize) -> (backend: Self)
        ensures
            backend.passphrase_view() == encode_utf8(passphrase.view_text()),
            backend.batch_size_view() == if batch_size == 0 {
                1
            } else {
                batch_size
            },
    {
        MnemonicCpuBackend {
            passphrase: crate::text::str_bytes(passphrase.expose()),
            batch_size: if batch_size == 0 {
                1
            } else {
                batch_size
            },
        }
    }

    /// Candidates per batch
    pub fn batch_size(&self) -> (size: usize)
        ensures
            size == self.batch_size_view(),
    {
        self.batch_size
    }

    /// The BIP39 seed of every candidate, in order
    pub fn derive_seeds(&self, candidates: &[MnemonicCandidate]) -> (seeds: SeedBatch)
        ensures
            seeds.view_seeds().len() == candidates@.len(),
            forall|i: int|
                0 <= i < candidates@.len() ==> #[trigger] seeds.view_seeds()[i] == seed_of(
                    encode_utf8(candidates@[i].phrase_view()),
                    self.passphrase_view(),
                ),
    {
        let mut seeds: Vec<[u8; 64]> = Vec::new();
        let mut i: usize = 0;
        while i < candidates.len()
            invariant
                i <= candidates@.len(),
                seeds@.len() == i,
                forall|j: int|
                    0 <= j < i ==> (#[trigger] seeds@[j])@ == seed_of(
                        encode_utf8(candidates@[j].phrase_view()),
                        self.passphrase@,
                    ),
            decreases candidates@.len() - i,
        {
            seeds.push(derive_seed(candidates[i].expose().as_bytes(), self.passphrase.as_slice()));
            i = i + 1;
        }
        let batch = SeedBatch::new(seeds);
        proof {
            assert forall|j: int| 0 <= j < candidates@.len() implies #[trigger] batch.view_seeds()[j] == seed_of(
                encode_utf8(candidates@[j].phrase_view()),
                self.passphrase@,
            ) by {
                assert(batch.view_seeds()[j] == seeds@[j]@);
            }
        }
        batch
    }

    /// Indices, in increasing order, of the candidates whose seed matches the
    /// wallet identity
    pub fn verify(&self, candidates: &[MnemonicCandidate], target: &VerificationTarget) -> (result: Result<
        Vec<usize>,
        RecoverError,
    >)
        ensures
            match result {
                Ok(indices) => {
                    &&& forall|a: int, b: int|
                        0 <= a < b < indices@.len() ==> #[trigger] indices@[a] < #[trigger] indices@[b]
                    &&& forall|k: int|
                        0 <= k < candidates@.len() ==> (indices@.contains(k as usize) <==> seed_matches_target(
                            seed_of(encode_utf8((#[trigger] candidates@[k]).phrase_view()), self.passphrase_view()),
                            *target,
                        ))
                },
                Err(error) => error is FingerprintDerivation && exists|k: int|
                    0 <= k < candidates@.len() && seed_check_fails(
                        seed_of(encode_utf8((#[trigger] candidates@[k]).phrase_view()), self.passphrase_view()),
                        *target,
                    ),
            },
    {
        let seeds = self.derive_seeds(candidates);
        let result = matching_candidate_indices_for_target(&seeds, target);
        proof {
            if result is Err {
                let k = choose|k: int|
                    0 <= k < seeds.view_seeds().len() && seed_check_fails(#[trigger] seeds.view_seeds()[k], *target);
                assert(seeds.view_seeds()[k] == seed_of(encode_utf8(candidates@[k].phrase_view()), self.passphrase@));
            }
            if result is Ok {
                let indices = result->Ok_0;
                assert forall|k: int| 0 <= k < candidates@.len() implies (indices@.contains(k as usize)
                    <==> seed_matches_target(
                    seed_of(encode_utf8((#[trigger] candidates@[k]).phrase_view()), self.passphrase@),
                    *target,
                )) by {
                    assert(seeds.view_seeds()[k] == seed_of(encode_utf8(candidates@[k].phrase_view()), self.passphrase@));
                }
            }
        }
        result
    }
}

/// A batch of mnemonic candidates and the cursor after it
pub struct PreparedMnemonicBatch {
    /// Checksum-valid candidates of the batch
    pub candidates: Vec<MnemonicCandidate>,
    /// Cursor after every rank the batch visited
    pub next_cursor: MnemonicCursor,
}

/// The next batch of up to `batch_size` candidates from a cursor
pub fn prepare_mnemonic_batch(plan: &MnemonicPlan, cursor: MnemonicCursor, batch_size: usize) -> (result: Result<
    PreparedMnemonicBatch,
    RecoverError,
>)
    ensures
        result matches Ok(prepared) && {
            let start = cursor.next_rank.value();
            let end = prepared.next_cursor.next_rank.value();
            let total = plan.total_work_view();
            &&& prepared.candidates@.len() <= batch_size
            &&& start >= total ==> end == start && prepared.candidates@.len() == 0
            &&& start < total ==> start <= end <= total && (prepared.candidates@.len() == batch_size || end == total)
            &&& forall|k: int|
                0 <= k < prepared.candidates@.len() ==> start <= (#[trigger] prepared.candidates@[k]).rank_value() < end
                    && candidate_of_rank(plan.slots_view(), prepared.candidates@[k])
            &&& forall|a: int, b: int|
                0 <= a < b < prepared.candidates@.len() ==> (#[trigger] prepared.candidates@[a]).rank_value()
                    < (#[trigger] prepared.candidates@[b]).rank_value()
            &&& forall|r: nat|
                start <= r < end && #[trigger] rank_yields(plan.slots_view(), r) ==> exists|k: int|
                    0 <= k < prepared.candidates@.len() && prepared.candidates@[k].rank_value() == r
        },
{
    let mut next_cursor = cursor;
    let candidates = match plan.next_batch(&mut next_cursor, batch_size) {
        Ok(candidates) => candidates,
        Err(error) => return Err(error),
    };
    Ok(PreparedMnemonicBatch { candidates, next_cursor })
}

/// Pending match records for the candidates at the given indices
pub fn pending_mnemonic_matches(candidates: &[MnemonicCandidate], indices: &Vec<usize>) -> (records: Vec<
    MnemonicMatchRecord,
>)
    requires
        forall|k: int| 0 <= k < indices@.len() ==> #[trigger] indices@[k] < candidates@.len(),
    ensures
        records@.len() == indices@.len(),
        forall|k: int|
            0 <= k < indices@.len() ==> (#[trigger] records@[k]).rank@ == crate::phase::decimal(
                candidates@[indices@[k] as int].rank_value(),
            ) && records@[k].status == MatchStatus::Pending,
{
    let mut records: Vec<MnemonicMatchRecord> = Vec::new();
    let mut k: usize = 0;
    while k < indices.len()
        invariant
            forall|j: int| 0 <= j < indices@.len() ==> #[trigger] indices@[j] < candidates@.len(),
            k <= indices@.len(),
            records@.len() == k,
            forall|j: int|
                0 <= j < k ==> (#[trigger] records@[j]).rank@ == crate::phase::decimal(
                    candidates@[indices@[j] as int].rank_value(),
                ) && records@[j].status == MatchStatus::Pending,
        decreases indices@.len() - k,
    {
        records.push(MnemonicMatchRecord::pending(&candidates[indices[k]]));
        k = k + 1;
    }
    records
}

/// Remaining entropy assignments from a durable cursor
pub fn remaining_work(plan: &MnemonicPlan, cursor: &MnemonicCursor) -> (remaining: BigNat)
    ensures
        remaining.value() == if cursor.next_rank.value() >= plan.total_work_view() {
            0
        } else {
            (plan.total_work_view() - cursor.next_rank.value()) as nat
        },
{
    let total = plan.total_work();
    if !cursor.next_rank.below_power_of_two(plan.unknown_entropy_bits()) {
        BigNat::zero()
    } else {
        total.difference(&cursor.next_rank)
    }
}

} // verus!
