use recoverme::domain::{
    BackendKind, Candidate, CandidateCursor, CandidateId, PhaseSummary, TargetFingerprint, VerificationTarget,
};
use recoverme::error::RecoverError;
use recoverme::phase::SearchPhase;
use recoverme::settings::RecoverySettings;
use recoverme::state::{
    validate_manifest, BenchmarkRecord, MatchRecord, MatchStatus, RecoveryManifest, RecoveryState, RuntimeState,
};

fn state() -> RecoveryState {
    let target = VerificationTarget::new(TargetFingerprint::parse("12345678").unwrap(), None).unwrap();
    let manifest = RecoveryManifest::expected(
        "spec".to_owned(),
        &target,
        RecoverySettings::default(),
        vec![PhaseSummary { phase: SearchPhase::WrittenLower, count: 10 }],
        1,
    );
    RecoveryState::from_parts("state".to_owned(), manifest, RuntimeState::default())
}

fn benchmark(backend: BackendKind, checks_per_second: f64) -> BenchmarkRecord {
    BenchmarkRecord {
        backend,
        candidates: 1_024,
        batch_size: 65_536,
        workgroup_size: if backend != BackendKind::Cpu { Some(64) } else { None },
        cpu_share_percent: if backend == BackendKind::Hybrid { Some(35) } else { None },
        hardware_signature: Some("test-hardware".into()),
        seeds_per_second_bits: checks_per_second.to_bits(),
        checks_per_second_bits: checks_per_second.to_bits(),
        verification_per_second_bits: checks_per_second.to_bits(),
        generation_per_second_bits: checks_per_second.to_bits(),
        device: "test-device".into(),
        measured_at_unix: 1,
    }
}

#[test]
fn cursor_and_matches_commit_in_one_runtime_document() {
    let mut state = state();
    let mut cursor = state.cursor();
    cursor.completed = 4;
    let candidate = Candidate::new(
        CandidateId("candidate".into()),
        SearchPhase::WrittenLower,
        vec!["alpha".into(), "brisk".into()],
    );
    state.complete_chunk(cursor, vec![MatchRecord::pending(&candidate)]);

    let mut reopened =
        RecoveryState::from_parts(state.directory().to_owned(), state.manifest().clone(), state.runtime().clone());
    assert_eq!(reopened.runtime().cursor.completed, 4);
    assert!(reopened.has_pending_matches());
    reopened.reject_match("candidate").unwrap();
    assert!(!reopened.has_pending_matches());
}

#[test]
fn benchmark_selection_is_unique_per_backend() {
    let mut state = state();
    state.record_benchmark(benchmark(BackendKind::Cuda, 10.0));
    state.record_benchmark(benchmark(BackendKind::Cuda, 20.0));

    assert_eq!(state.runtime().benchmarks.len(), 1);
    assert_eq!(
        f64::from_bits(state.latest_benchmark(BackendKind::Cuda).unwrap().checks_per_second_bits),
        20.0
    );
}

#[test]
fn legacy_hybrid_configuration_uses_the_fixed_cpu_share() {
    let mut record = benchmark(BackendKind::Hybrid, 20.0);
    record.cpu_share_percent = None;

    assert_eq!(record.configuration().unwrap().cpu_share().unwrap().percent(), 35);
}

#[test]
fn benchmarks_of_other_backends_are_kept_in_order() {
    let mut state = state();
    state.record_benchmark(benchmark(BackendKind::Cpu, 1.0));
    state.record_benchmark(benchmark(BackendKind::Metal, 2.0));
    state.record_benchmark(benchmark(BackendKind::Cpu, 3.0));
    let backends: Vec<BackendKind> = state.runtime().benchmarks.iter().map(|record| record.backend).collect();
    assert_eq!(backends, [BackendKind::Metal, BackendKind::Cpu]);
    assert!(state.latest_benchmark(BackendKind::Cuda).is_none());
}

#[test]
fn configurations_need_the_sizes_of_their_backend() {
    let cpu = benchmark(BackendKind::Cpu, 1.0).configuration().unwrap();
    assert_eq!(cpu.batch_size().get(), 65_536);
    assert!(cpu.workgroup_size().is_none());
    let mut metal = benchmark(BackendKind::Metal, 1.0);
    assert_eq!(metal.configuration().unwrap().workgroup_size().unwrap().get(), 64);
    metal.workgroup_size = None;
    assert!(matches!(metal.configuration(), Err(RecoverError::InvalidSetting(message)) if message == "metal benchmark is missing a workgroup size"));
    assert!(matches!(benchmark(BackendKind::Auto, 1.0).configuration(), Err(RecoverError::InvalidSetting(_))));
    let mut zero = benchmark(BackendKind::Cpu, 1.0);
    zero.batch_size = 0;
    assert!(zero.configuration().is_err());
}

#[test]
fn known_match_identifiers_are_not_recorded_twice() {
    let mut state = state();
    let candidate = Candidate::new(CandidateId("same".into()), SearchPhase::WrittenCase, vec!["Alpha".into()]);
    state.complete_chunk(CandidateCursor::default(), vec![MatchRecord::pending(&candidate), MatchRecord::pending(&candidate)]);
    state.complete_chunk(CandidateCursor::default(), vec![MatchRecord::pending(&candidate)]);
    assert_eq!(state.runtime().matches.len(), 1);
    assert_eq!(state.runtime().matches[0].passphrase, "Alpha");
    assert!(!state.is_rejected(&CandidateId("same".into())));
    state.reject_match("same").unwrap();
    assert!(state.is_rejected(&CandidateId("same".into())));
    assert_eq!(state.runtime().matches[0].status, MatchStatus::Rejected);
    assert!(matches!(state.reject_match("same"), Err(RecoverError::MatchNotFound(id)) if id == "same"));
    assert!(matches!(state.reject_match("other"), Err(RecoverError::MatchNotFound(_))));
}

#[test]
fn manifests_must_match_the_search() {
    let current = state().manifest().clone();
    assert!(validate_manifest(&current, &current).is_ok());
    let mut other = current.clone();
    other.spec_hash = "different".into();
    assert!(matches!(validate_manifest(&other, &current), Err(RecoverError::StateMismatch)));
    let mut old = current.clone();
    old.state_format_version = 0;
    assert!(matches!(validate_manifest(&old, &current), Err(RecoverError::UnsupportedStateVersion(0))));
    let mut newer = current.clone();
    newer.algorithm_version = 99;
    assert!(matches!(newer.check_versions(), Err(RecoverError::UnsupportedStateVersion(99))));
    assert!(matches!(current.verification_target(), Ok(VerificationTarget::Fingerprint(_))));
    assert_eq!(MatchStatus::Pending.name(), "pending");
}
