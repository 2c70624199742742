//! Division of a candidate batch between the CPU and an accelerator

use vstd::prelude::*;

use crate::domain::{
    batch_stride, lemma_stride_at_least, lemma_stride_bounded, passphrase_lengths, Candidate, CandidateBatch, CandidateId,
    CpuShare,
};
use crate::error::RecoverError;
use crate::settings::DEFAULT_MAX_PASSPHRASE_BYTES;

verus! {

/// Number of leading candidates of a batch of `len` assigned to the CPU
pub open spec fn cpu_count(len: nat, percent: nat) -> nat {
    len * percent / 100
}

/// Two candidates hold the same identifier, phase, passphrase and words
pub open spec fn same_candidate(a: Candidate, b: Candidate) -> bool {
    a.id_view() == b.id_view() && a.phase_view() == b.phase_view() && a.passphrase_view()@
        == b.passphrase_view()@ && a.words_view() == b.words_view()
}

/// The candidates agree one for one
pub open spec fn same_candidates(a: Seq<Candidate>, b: Seq<Candidate>) -> bool {
    a.len() == b.len() && forall|i: int| 0 <= i < a.len() ==> same_candidate(#[trigger] a[i], b[i])
}

/// Split a batch: the first `len * percent / 100` candidates for the CPU,
/// the rest, in order, for the accelerator
pub fn split_at_cpu_share(candidates: &CandidateBatch, cpu_share: CpuShare) -> (result: Result<
    (CandidateBatch, CandidateBatch),
    RecoverError,
>)
    requires
        candidates.packs(),
    ensures
        match result {
            Ok((cpu, accelerator)) => {
                let all = candidates.candidates_view();
                let k = cpu_count(all.len(), cpu_share.value() as nat) as int;
                &&& same_candidates(cpu.candidates_view(), all.take(k))
                &&& same_candidates(accelerator.candidates_view(), all.skip(k))
                &&& cpu.packs()
                &&& accelerator.packs()
            },
            Err(_) => false,
        },
{
    let all = candidates.candidates();
    let len = all.len();
    let percent = cpu_share.percent();
    let wide = len as u128;
    assert(wide * (percent as u128) <= wide * 99) by (nonlinear_arith)
        requires
            percent <= 99,
    ;
    assert(wide * 99 <= u128::MAX) by (nonlinear_arith)
        requires
            wide <= usize::MAX,
    ;
    let scaled = wide * (percent as u128) / 100;
    assert(scaled <= wide) by (nonlinear_arith)
        requires
            scaled == wide * (percent as u128) / 100,
            percent <= 99,
    ;
    let split = scaled as usize;
    let mut cpu: Vec<Candidate> = Vec::new();
    let mut accelerator: Vec<Candidate> = Vec::new();
    let mut i: usize = 0;
    while i < len
        invariant
            i <= len,
            len == all@.len(),
            split <= len,
            i <= split ==> same_candidates(cpu@, all@.take(i as int)) && accelerator@.len() == 0,
            i > split ==> same_candidates(cpu@, all@.take(split as int)) && same_candidates(
                accelerator@,
                all@.subrange(split as int, i as int),
            ),
        decreases len - i,
    {
        let copy = copy_candidate(&all[i]);
        if i < split {
            cpu.push(copy);
            proof {
                assert forall|t: int| 0 <= t < cpu@.len() implies same_candidate(#[trigger] cpu@[t], all@.take(i + 1)[t]) by {
                    if t < i {
                        assert(all@.take(i + 1)[t] == all@.take(i as int)[t]);
                    }
                }
            }
        } else {
            let ghost before = accelerator@;
            accelerator.push(copy);
            proof {
                let sub = all@.subrange(split as int, i + 1);
                assert forall|t: int| 0 <= t < accelerator@.len() implies same_candidate(
                    #[trigger] accelerator@[t],
                    sub[t],
                ) by {
                    if t < accelerator@.len() - 1 {
                        assert(sub[t] == all@.subrange(split as int, i as int)[t]);
                        assert(accelerator@[t] == before[t]);
                    }
                }
            }
        }
        i = i + 1;
    }
    proof {
        assert(all@.subrange(split as int, len as int) =~= all@.skip(split as int));
        let lengths = passphrase_lengths(all@);
        let stride = batch_stride(lengths);
        assert forall|k: int| 0 <= k < all@.len() implies #[trigger] lengths[k] <= DEFAULT_MAX_PASSPHRASE_BYTES by {
            lemma_stride_at_least(lengths, k);
        }
        let cl = passphrase_lengths(cpu@);
        assert forall|k: int| 0 <= k < cl.len() implies #[trigger] cl[k] <= DEFAULT_MAX_PASSPHRASE_BYTES by {
            assert(same_candidate(cpu@[k], all@.take(split as int)[k]));
            assert(cl[k] == lengths[k]);
        }
        lemma_stride_bounded(cl, DEFAULT_MAX_PASSPHRASE_BYTES as nat);
        let al = passphrase_lengths(accelerator@);
        assert forall|k: int| 0 <= k < al.len() implies #[trigger] al[k] <= DEFAULT_MAX_PASSPHRASE_BYTES by {
            assert(same_candidate(accelerator@[k], all@.skip(split as int)[k]));
            assert(al[k] == lengths[k + split]);
        }
        lemma_stride_bounded(al, DEFAULT_MAX_PASSPHRASE_BYTES as nat);
    }
    let cpu_batch = match CandidateBatch::new(cpu) {
        Ok(batch) => batch,
        Err(error) => return Err(error),
    };
    let accelerator_batch = match CandidateBatch::new(accelerator) {
        Ok(batch) => batch,
        Err(error) => return Err(error),
    };
    Ok((cpu_batch, accelerator_batch))
}

/// A copy of a candidate
pub fn copy_candidate(candidate: &Candidate) -> (copy: Candidate)
    ensures
        copy.id_view() == candidate.id_view(),
        copy.phase_view() == candidate.phase_view(),
        copy.passphrase_view()@ == candidate.passphrase_view()@,
        copy.words_view() == candidate.words_view(),
{
    let words = candidate.words();
    let mut copied: Vec<String> = Vec::new();
    let mut i: usize = 0;
    while i < words.len()
        invariant
            i <= words@.len(),
            copied@ == words@.take(i as int),
        decreases words@.len() - i,
    {
        copied.push(words[i].clone());
        i = i + 1;
        assert(copied@ =~= words@.take(i as int));
    }
    assert(words@.take(words@.len() as int) =~= words@);
    Candidate::from_parts(
        CandidateId(candidate.id().0.clone()),
        candidate.phase(),
        String::from_str(candidate.passphrase()),
        copied,
    )
}

} // verus!
