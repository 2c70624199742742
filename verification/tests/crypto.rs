use bip32::{Prefix, XPrv};
use bip39::{Language, Mnemonic};
use recoverme::crypto::{
    fingerprint_for_passphrase, matching_candidate_indices, matching_candidate_indices_for_target, CpuSeedDeriver,
    SeedBatch,
};
use recoverme::domain::{
    Candidate, CandidateBatch, CandidateId, MasterXpubTarget, SecretMnemonic, TargetFingerprint, VerificationTarget,
};
use recoverme::error::RecoverError;
use recoverme::phase::SearchPhase;

const PUBLIC_TEST_MNEMONIC: &str = "abandon abandon abandon abandon abandon abandon abandon abandon abandon abandon abandon abandon abandon abandon abandon abandon abandon abandon abandon abandon abandon abandon abandon art";

#[test]
fn preserves_coldcard_fingerprint_byte_order() {
    let mnemonic = SecretMnemonic::new(PUBLIC_TEST_MNEMONIC.to_owned());

    assert_eq!(
        hex::encode(fingerprint_for_passphrase(&mnemonic, "").unwrap()),
        "5436d724"
    );
    assert_eq!(
        hex::encode(fingerprint_for_passphrase(&mnemonic, "alphabriskcactusdaringeagerfabricgadget",).unwrap()),
        "997f3522"
    );
}

#[test]
fn accelerated_cpu_seed_derivation_matches_bip39() {
    let secret = SecretMnemonic::new(PUBLIC_TEST_MNEMONIC.to_owned());
    let deriver = CpuSeedDeriver::new(&secret).unwrap();
    let long = "a".repeat(100);
    let candidates = [
        "",
        "lowercase",
        "TitleCase",
        "UPPERCASE",
        "mIxEdCapitalization",
        long.as_str(),
    ]
    .into_iter()
    .enumerate()
    .map(|(index, passphrase)| {
        Candidate::new(CandidateId(index.to_string()), SearchPhase::WrittenCase, vec![passphrase.to_owned()])
    })
    .collect::<Vec<_>>();
    let batch = CandidateBatch::new(candidates).unwrap();
    let actual = deriver.derive_seeds(&batch).unwrap();
    let reference = Mnemonic::parse_in(Language::English, PUBLIC_TEST_MNEMONIC).unwrap();
    for (candidate, seed) in batch.candidates().iter().zip(actual.as_slice()) {
        assert_eq!(*seed, reference.to_seed(candidate.passphrase()));
    }
}

#[test]
fn master_xpub_target_rejects_fingerprint_only_collisions() {
    let mnemonic = Mnemonic::parse_in(Language::English, PUBLIC_TEST_MNEMONIC).unwrap();
    let expected = XPrv::new(&mnemonic.to_seed("correct")).unwrap();
    let master_xpub = MasterXpubTarget::parse(&expected.public_key().to_extended_key(Prefix::XPUB).to_string()).unwrap();
    let fingerprint = hex::encode(master_xpub.fingerprint()).parse::<TargetFingerprint>().unwrap();
    let target = VerificationTarget::new(fingerprint, Some(master_xpub)).unwrap();
    let seeds = SeedBatch::new(vec![mnemonic.to_seed("wrong"), mnemonic.to_seed("correct")]);

    assert_eq!(matching_candidate_indices_for_target(&seeds, &target).unwrap(), [1]);
}

#[test]
fn fingerprint_target_selects_matching_seeds_in_order() {
    let mnemonic = Mnemonic::parse_in(Language::English, PUBLIC_TEST_MNEMONIC).unwrap();
    let target = TargetFingerprint::parse("5436d724").unwrap();
    let seeds = SeedBatch::new(vec![
        mnemonic.to_seed(""),
        mnemonic.to_seed("other"),
        mnemonic.to_seed(""),
    ]);
    assert_eq!(matching_candidate_indices(&seeds, target).unwrap(), [0, 2]);
    let by_target = VerificationTarget::new(target, None).unwrap();
    assert_eq!(matching_candidate_indices_for_target(&seeds, &by_target).unwrap(), [0, 2]);
}

#[test]
fn cpu_verify_finds_the_candidate_of_the_target() {
    let secret = SecretMnemonic::new(PUBLIC_TEST_MNEMONIC.to_owned());
    let deriver = CpuSeedDeriver::new(&secret).unwrap();
    let batch = CandidateBatch::new(
        ["x", "alphabriskcactusdaringeagerfabricgadget", "y"]
            .into_iter()
            .enumerate()
            .map(|(index, passphrase)| {
                Candidate::new(CandidateId(index.to_string()), SearchPhase::WrittenLower, vec![passphrase.to_owned()])
            })
            .collect(),
    )
    .unwrap();
    let target = VerificationTarget::new(TargetFingerprint::parse("997f3522").unwrap(), None).unwrap();
    assert_eq!(deriver.verify(&batch, &target).unwrap(), [1]);
}

#[test]
fn invalid_mnemonic_is_rejected() {
    let secret = SecretMnemonic::new("abandon abandon".to_owned());
    assert!(matches!(CpuSeedDeriver::new(&secret), Err(RecoverError::InvalidMnemonic(_))));
    assert!(matches!(
        fingerprint_for_passphrase(&secret, ""),
        Err(RecoverError::InvalidMnemonic(_))
    ));
}

#[test]
fn cpu_configure_rejects_zero_batches_and_workgroups() {
    let secret = SecretMnemonic::new(PUBLIC_TEST_MNEMONIC.to_owned());
    let mut deriver = CpuSeedDeriver::new(&secret).unwrap();
    let before = deriver.preferred_batch_size();
    assert!(matches!(deriver.configure(0, None), Err(RecoverError::InvalidSetting(_))));
    assert!(matches!(deriver.configure(8, Some(64)), Err(RecoverError::InvalidSetting(_))));
    assert_eq!(deriver.preferred_batch_size(), before);
    deriver.configure(8, None).unwrap();
    assert_eq!(deriver.preferred_batch_size(), 8);
}
