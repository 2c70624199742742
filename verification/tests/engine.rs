use recoverme::backend::{available_backends, create_deriver};
use recoverme::benchmark::{next_exact_batch, sustained_capacity, SustainedBenchmarkConfig, VerificationMode};
use recoverme::crypto::fingerprint_for_passphrase;
use recoverme::domain::{BackendKind, CandidateCursor, SecretMnemonic, TargetFingerprint, VerificationTarget, WrittenWords};
use recoverme::engine::{
    apply_benchmark, benchmark_sample, chunk_outcome, configure_for_benchmark, pending_matches, prepare_batch, rejected_ids,
    run_batch_size, warmup_batch, RunOutcome,
};
use recoverme::error::RecoverError;
use recoverme::phase::SearchPhase;
use recoverme::search::RecoveryPlan;
use recoverme::settings::RecoverySettings;
use recoverme::state::{RecoveryManifest, RecoveryState, RuntimeState};

const PUBLIC_TEST_MNEMONIC: &str = "abandon abandon abandon abandon abandon abandon abandon abandon abandon abandon abandon abandon abandon abandon abandon abandon abandon abandon abandon abandon abandon abandon abandon art";

fn plan(list: &[&str]) -> RecoveryPlan {
    let words = WrittenWords::new(list.iter().map(|word| word.to_string()).collect()).unwrap();
    let settings = RecoverySettings { max_replacements: 0, ..RecoverySettings::default() };
    RecoveryPlan::compile(&words, settings).unwrap()
}

#[test]
fn rejects_a_plan_too_small_for_sustained_measurement() {
    let plan = plan(&["alpha"]);
    let config = SustainedBenchmarkConfig {
        sample_size: 4,
        repetitions: 2,
        batch_size: 4,
        workgroup_size: Some(32),
        through: SearchPhase::WrittenCase,
    };

    assert!(matches!(
        sustained_capacity(&plan, &config),
        Err(RecoverError::InsufficientBenchmarkCandidates { .. })
    ));
}

#[test]
fn sustained_capacity_counts_the_warmup_batch() {
    let plan = plan(&["alpha", "brisk"]);
    let available = plan.count_through(SearchPhase::WrittenCase).unwrap();
    let fits = SustainedBenchmarkConfig {
        sample_size: 2,
        repetitions: 1,
        batch_size: 2,
        workgroup_size: None,
        through: SearchPhase::WrittenCase,
    };
    assert_eq!(sustained_capacity(&plan, &fits).unwrap(), 4);
    let too_many = SustainedBenchmarkConfig { sample_size: available as usize, ..fits };
    assert!(matches!(
        sustained_capacity(&plan, &too_many),
        Err(RecoverError::InsufficientBenchmarkCandidates { required, available: counted })
            if required == 2 * available as usize && counted == available
    ));
    let disabled = SustainedBenchmarkConfig { through: SearchPhase::NeighborLower(1), ..fits };
    assert!(matches!(sustained_capacity(&plan, &disabled), Err(RecoverError::DisabledPhase(name)) if name == "neighbor-1-lower"));
    let mut cursor = CandidateCursor::default();
    assert_eq!(next_exact_batch(&plan, &mut cursor, SearchPhase::WrittenCase, 3).unwrap().len(), 3);
    assert_eq!(cursor.completed, 3);
    let mut short = CandidateCursor::default();
    assert!(matches!(
        next_exact_batch(&plan, &mut short, SearchPhase::WrittenLower, 100),
        Err(RecoverError::InsufficientBenchmarkCandidates { required: 100, .. })
    ));
}

#[test]
fn rejected_matches_are_skipped_when_a_run_resumes() {
    let mnemonic = SecretMnemonic::new(PUBLIC_TEST_MNEMONIC.to_owned());
    let plan = plan(&["alpha"]);
    let fingerprint = TargetFingerprint::parse(&hex::encode(fingerprint_for_passphrase(&mnemonic, "alpha").unwrap())).unwrap();
    let target = VerificationTarget::new(fingerprint, None).unwrap();
    let manifest = RecoveryManifest::expected(
        "spec".into(),
        &target,
        RecoverySettings { max_replacements: 0, ..RecoverySettings::default() },
        plan.phase_summaries(),
        1,
    );
    let mut state = RecoveryState::from_parts("state".into(), manifest, RuntimeState::default());
    let deriver = create_deriver(BackendKind::Cpu, &mnemonic).unwrap();
    let batch_size = run_batch_size(deriver.preferred_batch_size());

    let prepared =
        prepare_batch(&plan, state.cursor(), SearchPhase::WrittenLower, batch_size, &rejected_ids(state.runtime()))
            .unwrap();
    let indices = deriver.verify(&prepared.batch, &target).unwrap();
    let matches = pending_matches(&prepared.batch, &indices);
    let count = matches.len();
    state.complete_chunk(prepared.next_cursor, matches);
    assert_eq!(chunk_outcome(count), Some(RunOutcome::MatchesFound(1)));
    let record = &state.runtime().matches[0];
    assert_eq!(record.passphrase, "alpha");
    assert_eq!(record.words, ["alpha"]);

    let match_id = record.id.0.clone();
    state.reject_match(&match_id).unwrap();
    let rejected = rejected_ids(state.runtime());
    assert_eq!(rejected.len(), 1);
    let replayed = prepare_batch(&plan, CandidateCursor::default(), SearchPhase::WrittenLower, batch_size, &rejected).unwrap();
    assert!(replayed.batch.is_empty());
    assert!(!replayed.exhausted);
    let resumed = prepare_batch(&plan, state.cursor(), SearchPhase::WrittenLower, batch_size, &rejected).unwrap();
    assert!(resumed.exhausted);
    assert_eq!(resumed.next_cursor.completed, 1);
    assert!(!state.has_pending_matches());
    assert_eq!(chunk_outcome(0), None);
}

#[test]
fn backends_and_benchmark_decisions() {
    assert_eq!(available_backends(), vec![BackendKind::Cpu]);
    let mnemonic = SecretMnemonic::new(PUBLIC_TEST_MNEMONIC.to_owned());
    assert!(matches!(create_deriver(BackendKind::Auto, &mnemonic), Err(RecoverError::BackendUnavailable(_))));
    assert!(matches!(create_deriver(BackendKind::Metal, &mnemonic), Err(RecoverError::BackendUnavailable(name)) if name == "metal"));
    let mut deriver = create_deriver(BackendKind::Cpu, &mnemonic).unwrap();
    assert!(configure_for_benchmark(&mut deriver, None, Some(64)).is_err());
    configure_for_benchmark(&mut deriver, Some(16), None).unwrap();
    assert_eq!(deriver.preferred_batch_size(), 16);
    assert_eq!(run_batch_size(0), 1);

    let plan = plan(&["alpha", "brisk"]);
    let (sample, cursor) = benchmark_sample(&plan, 0).unwrap();
    assert_eq!(sample.len(), 1);
    assert_eq!(cursor.completed, 1);
    let (sample, _) = benchmark_sample(&plan, 10).unwrap();
    assert_eq!(sample.len(), 10);
    let warmup = warmup_batch(&sample, 16).unwrap();
    assert_eq!(warmup.len(), 4);
    assert_eq!(warmup.candidates()[3].passphrase(), sample.candidates()[3].passphrase());
    assert_eq!(warmup_batch(&sample, 2).unwrap().len(), 2);

    let target = VerificationTarget::new(TargetFingerprint::parse("00000000").unwrap(), None).unwrap();
    assert_eq!(VerificationMode::from_target(&target), VerificationMode::Fingerprint);
    assert_eq!(VerificationMode::MasterXpub.name(), "master-xpub");
}

/// One recovery run driven chunk by chunk through the library's decisions,
/// with the state kept in memory
fn drive(
    plan: &RecoveryPlan,
    state: &mut RecoveryState,
    mnemonic: &SecretMnemonic,
    target: &VerificationTarget,
    through: SearchPhase,
    stop: bool,
) -> Result<RunOutcome, RecoverError> {
    if state.has_pending_matches() {
        return Err(RecoverError::PendingMatches);
    }
    let mut deriver = create_deriver(BackendKind::Cpu, mnemonic)?;
    apply_benchmark(&mut deriver, state.latest_benchmark(BackendKind::Cpu))?;
    let batch_size = run_batch_size(deriver.preferred_batch_size());
    let rejected = rejected_ids(state.runtime());
    let mut prepared = prepare_batch(plan, state.cursor(), through, batch_size, &rejected)?;
    loop {
        if prepared.exhausted {
            state.complete_chunk(prepared.next_cursor, Vec::new());
            return Ok(RunOutcome::Exhausted);
        }
        if stop {
            return Ok(RunOutcome::Interrupted);
        }
        let next = prepare_batch(plan, prepared.next_cursor, through, batch_size, &rejected)?;
        let indices = if prepared.batch.is_empty() { Vec::new() } else { deriver.verify(&prepared.batch, target)? };
        let matches = pending_matches(&prepared.batch, &indices);
        let count = matches.len();
        state.complete_chunk(prepared.next_cursor, matches);
        if let Some(outcome) = chunk_outcome(count) {
            return Ok(outcome);
        }
        prepared = next;
    }
}

fn fresh_state(plan: &RecoveryPlan, target: &VerificationTarget) -> RecoveryState {
    let manifest = RecoveryManifest::expected(
        "spec".into(),
        target,
        RecoverySettings { max_replacements: 0, ..RecoverySettings::default() },
        plan.phase_summaries(),
        1,
    );
    RecoveryState::from_parts("state".into(), manifest, RuntimeState::default())
}

#[test]
fn match_is_checkpointed_and_can_be_rejected_before_resume() {
    let mnemonic = SecretMnemonic::new(PUBLIC_TEST_MNEMONIC.to_owned());
    let plan = plan(&["alpha"]);
    let fingerprint =
        TargetFingerprint::parse(&hex::encode(fingerprint_for_passphrase(&mnemonic, "alpha").unwrap())).unwrap();
    let target = VerificationTarget::new(fingerprint, None).unwrap();
    let mut state = fresh_state(&plan, &target);

    let outcome = drive(&plan, &mut state, &mnemonic, &target, SearchPhase::WrittenLower, false).unwrap();
    assert_eq!(outcome, RunOutcome::MatchesFound(1));
    let record = &state.runtime().matches[0];
    assert_eq!(record.passphrase, "alpha");
    assert_eq!(record.words, ["alpha"]);
    assert!(matches!(
        drive(&plan, &mut state, &mnemonic, &target, SearchPhase::WrittenLower, false),
        Err(RecoverError::PendingMatches)
    ));

    let match_id = state.runtime().matches[0].id.0.clone();
    state.reject_match(&match_id).unwrap();
    let resumed = drive(&plan, &mut state, &mnemonic, &target, SearchPhase::WrittenLower, false).unwrap();
    assert_eq!(resumed, RunOutcome::Exhausted);
    assert_eq!(state.runtime().cursor.completed, 1);
    assert!(!state.has_pending_matches());
}

#[test]
fn interruption_does_not_checkpoint_prepared_candidates() {
    let mnemonic = SecretMnemonic::new(PUBLIC_TEST_MNEMONIC.to_owned());
    let plan = plan(&["alpha", "brisk"]);
    let target = VerificationTarget::new(TargetFingerprint::parse("00000000").unwrap(), None).unwrap();
    let mut state = fresh_state(&plan, &target);

    let outcome = drive(&plan, &mut state, &mnemonic, &target, SearchPhase::WrittenLower, true).unwrap();

    assert_eq!(outcome, RunOutcome::Interrupted);
    assert_eq!(state.runtime().cursor, CandidateCursor::default());
}

#[test]
fn a_short_batch_leaves_nothing_for_the_next_one() {
    let plan = plan(&["alpha"]);
    let mut cursor = CandidateCursor::default();
    let first = plan.next_batch(&mut cursor, SearchPhase::WrittenLower, 10).unwrap();
    assert_eq!(first.len(), 1);
    let finished = cursor;
    assert!(plan.next_batch(&mut cursor, SearchPhase::WrittenLower, 10).unwrap().is_empty());
    assert_eq!(cursor, finished);
    let prepared = prepare_batch(&plan, cursor, SearchPhase::WrittenLower, 10, &Vec::new()).unwrap();
    assert!(prepared.exhausted);
    assert_eq!(prepared.next_cursor, finished);
}
