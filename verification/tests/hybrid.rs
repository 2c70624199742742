use recoverme::domain::{Candidate, CandidateBatch, CandidateId, CpuShare};
use recoverme::hybrid::split_at_cpu_share;
use recoverme::phase::SearchPhase;

#[test]
fn split_preserves_every_candidate_at_tuned_share() {
    let candidates = CandidateBatch::new(
        (0..101)
            .map(|index| {
                Candidate::new(
                    CandidateId(index.to_string()),
                    SearchPhase::WrittenLower,
                    vec![format!("word{index}")],
                )
            })
            .collect(),
    )
    .unwrap();

    let (cpu, accelerator) = split_at_cpu_share(&candidates, CpuShare::try_from(2).unwrap()).unwrap();

    assert_eq!(cpu.len(), 2);
    assert_eq!(accelerator.len(), 99);
    assert_eq!(cpu.candidates()[0].passphrase(), "word0");
    assert_eq!(accelerator.candidates()[0].passphrase(), "word2");
    assert_eq!(accelerator.candidates()[98].passphrase(), "word100");
}
