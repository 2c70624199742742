use bip32::{Prefix, XPrv};
use bip39::{Language, Mnemonic};
use recoverme::backend::quick_sample_size;
use recoverme::casing::case_pattern_count;
use recoverme::combinatorics::factorial;
use recoverme::domain::{
    BackendKind, Candidate, CandidateBatch, CandidateId, MasterXpubTarget, TargetFingerprint, VerificationTarget,
};
use recoverme::error::RecoverError;
use recoverme::phase::SearchPhase;
use recoverme::report::is_affirmative;
use recoverme::settings::SpacingMode;
use recoverme::spacing::spacing_patterns;

const PUBLIC_TEST_MNEMONIC: &str = "abandon abandon abandon abandon abandon abandon abandon abandon abandon abandon abandon abandon abandon abandon abandon abandon abandon abandon abandon abandon abandon abandon abandon art";

fn master_xpub(passphrase: &str) -> MasterXpubTarget {
    let mnemonic = Mnemonic::parse_in(Language::English, PUBLIC_TEST_MNEMONIC).unwrap();
    let key = XPrv::new(&mnemonic.to_seed(passphrase)).unwrap();
    MasterXpubTarget::parse(&key.public_key().to_extended_key(Prefix::XPUB).to_string()).unwrap()
}

#[test]
fn fingerprints_need_eight_hexadecimal_digits() {
    assert!(matches!(TargetFingerprint::parse("5436d72"), Err(RecoverError::InvalidFingerprint(_))));
    assert!(matches!(TargetFingerprint::parse("5436d72g"), Err(RecoverError::InvalidFingerprint(_))));
    assert!(matches!(TargetFingerprint::parse(" 5436d724"), Err(RecoverError::InvalidFingerprint(shown)) if shown == " 5436d724"));
    assert_eq!(TargetFingerprint::parse("5436D724").unwrap().bytes(), [0x54, 0x36, 0xd7, 0x24]);
}

#[test]
fn master_xpubs_must_decode_and_agree_with_the_fingerprint() {
    assert!(matches!(MasterXpubTarget::parse("xpub-not-a-key"), Err(RecoverError::InvalidMasterXpub(_))));
    let xpub = master_xpub("correct");
    let own = TargetFingerprint::from_bytes(xpub.fingerprint());
    let other = TargetFingerprint::parse("00000000").unwrap();
    assert!(matches!(
        VerificationTarget::new(other, Some(xpub.clone())),
        Err(RecoverError::MasterXpubFingerprintMismatch)
    ));
    let target = VerificationTarget::new(own, Some(xpub)).unwrap();
    assert_eq!(target.fingerprint(), own);
    assert!(target.master_xpub().is_some());
}

#[test]
fn counts_beyond_their_integer_type_overflow() {
    assert_eq!(factorial(34).unwrap(), 295232799039604140847618609643520000000);
    assert!(matches!(factorial(35), Err(RecoverError::CountOverflow)));
    assert!(matches!(spacing_patterns(128, SpacingMode::Between, false), Err(RecoverError::CountOverflow)));
    assert_eq!(case_pattern_count(2, true).unwrap(), 8);
    assert_eq!(case_pattern_count(2, false).unwrap(), 1);
}

#[test]
fn batches_reject_passphrases_over_the_device_limit() {
    let long = "a".repeat(101);
    let candidates = vec![Candidate::new(CandidateId("long".into()), SearchPhase::WrittenCase, vec![long])];
    assert!(matches!(CandidateBatch::new(candidates), Err(RecoverError::SeedDerivation(message)) if message == "candidate long exceeds 100 bytes"));
}

#[test]
fn confirmation_answers_and_quick_samples() {
    assert!(is_affirmative("y\n"));
    assert!(is_affirmative("  YES "));
    assert!(!is_affirmative("yep"));
    assert!(!is_affirmative(""));
    assert_eq!(quick_sample_size(BackendKind::Cpu), 4_096);
    assert_eq!(quick_sample_size(BackendKind::Cuda), 16_384);
}
