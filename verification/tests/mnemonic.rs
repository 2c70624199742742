use bip32::{Prefix, XPrv};
use bip39::{Language, Mnemonic};
use recoverme::bignat::BigNat;
use recoverme::domain::{MasterXpubTarget, TargetFingerprint, VerificationTarget};
use recoverme::error::RecoverError;
use recoverme::mnemonic::{
    mnemonic_inputs, mnemonic_spec_hash, MnemonicCursor, MnemonicPlan, MnemonicRecoveryInputs, MnemonicTemplate,
    SecretPassphrase,
};
use recoverme::mnemonic_engine::{pending_mnemonic_matches, prepare_mnemonic_batch, remaining_work, MnemonicCpuBackend};
use recoverme::mnemonic_state::{
    validate_mnemonic_manifest, MnemonicMatchRecord, MnemonicRecoveryManifest, MnemonicRecoveryState,
    MnemonicRuntimeState,
};

const SUPPORTED_WORD_COUNTS: [usize; 5] = [12, 15, 18, 21, 24];

const VALID_TWELVE: &str = "abandon\nabandon\nabandon\nabandon\nabandon\nabandon\nabandon\nabandon\nabandon\nabandon\nabandon\nabout";

#[test]
fn accepts_every_standard_word_count() {
    for word_count in SUPPORTED_WORD_COUNTS {
        let template = std::iter::repeat_n("?", word_count).collect::<Vec<_>>().join("\n");
        assert_eq!(MnemonicTemplate::parse(&template).unwrap().word_count(), word_count);
    }
}

#[test]
fn rejects_nonstandard_word_counts_and_non_bip39_words() {
    assert!(MnemonicTemplate::parse(&std::iter::repeat_n("?", 11).collect::<Vec<_>>().join("\n")).is_err());
    assert!(MnemonicTemplate::parse(&VALID_TWELVE.replace("about", "notaword")).is_err());
}

#[test]
fn complete_template_produces_its_single_mnemonic() {
    let plan = MnemonicPlan::compile(MnemonicTemplate::parse(VALID_TWELVE).unwrap()).unwrap();
    let candidate = plan.candidate_at(&BigNat::zero()).unwrap().unwrap();

    assert_eq!(plan.unknown_entropy_bits(), 0);
    assert_eq!(plan.total_work().to_decimal(), "1");
    assert_eq!(candidate.expose(), VALID_TWELVE.replace('\n', " "));
}

#[test]
fn missing_final_word_in_twelve_words_has_seven_unknown_bits() {
    let template = VALID_TWELVE.replace("about", "?");
    let plan = MnemonicPlan::compile(MnemonicTemplate::parse(&template).unwrap()).unwrap();
    let mut cursor = MnemonicCursor::default();
    let candidates = plan.next_batch(&mut cursor, 128).unwrap();

    assert_eq!(plan.unknown_entropy_bits(), 7);
    assert_eq!(plan.total_work().to_decimal(), "128");
    assert_eq!(candidates.len(), 128);
    assert_eq!(cursor.next_rank.to_decimal(), "128");
}

#[test]
fn known_final_word_filters_invalid_checksums() {
    let template = VALID_TWELVE.replacen("abandon", "?", 1);
    let plan = MnemonicPlan::compile(MnemonicTemplate::parse(&template).unwrap()).unwrap();
    let mut cursor = MnemonicCursor::default();
    let candidates = plan.next_batch(&mut cursor, 2_048).unwrap();

    assert_eq!(plan.unknown_entropy_bits(), 11);
    assert!((64..=192).contains(&candidates.len()));
    assert_eq!(cursor.next_rank.to_decimal(), "2048");
    assert!(candidates.iter().any(|candidate| candidate.expose() == VALID_TWELVE.replace('\n', " ")));
}

#[test]
fn eight_known_words_and_missing_final_word_is_a_forty_bit_search() {
    let template = format!("{}\n?\n?\n?\n?", VALID_TWELVE.lines().take(8).collect::<Vec<_>>().join("\n"));
    let plan = MnemonicPlan::compile(MnemonicTemplate::parse(&template).unwrap()).unwrap();

    assert_eq!(plan.template().known_word_count(), 8);
    assert_eq!(plan.unknown_entropy_bits(), 40);
    assert_eq!(plan.total_work().to_decimal(), (1u64 << 40).to_string());
}

#[test]
fn every_known_word_count_changes_the_twelve_word_entropy_space() {
    let valid_words = VALID_TWELVE.lines().collect::<Vec<_>>();
    for known_words in 0..=12 {
        let template = valid_words
            .iter()
            .enumerate()
            .map(|(position, word)| if position < known_words { *word } else { "?" })
            .collect::<Vec<_>>()
            .join("\n");
        let plan = MnemonicPlan::compile(MnemonicTemplate::parse(&template).unwrap()).unwrap();
        let expected_unknown_bits = 128_usize.saturating_sub((known_words * 11).min(128));

        assert_eq!(plan.template().known_word_count(), known_words);
        assert_eq!(plan.unknown_entropy_bits(), expected_unknown_bits);
    }
}

#[test]
fn final_word_entropy_width_tracks_each_standard_checksum_width() {
    for word_count in SUPPORTED_WORD_COUNTS {
        let entropy_bytes = word_count / 3 * 4;
        let mnemonic = Mnemonic::from_entropy(&vec![0_u8; entropy_bytes]).unwrap();
        let mut words = mnemonic.words().collect::<Vec<_>>();
        words[word_count - 1] = "?";
        let plan = MnemonicPlan::compile(MnemonicTemplate::parse(&words.join("\n")).unwrap()).unwrap();

        assert_eq!(plan.checksum_bits(), word_count / 3);
        assert_eq!(plan.unknown_entropy_bits(), 11 - word_count / 3);
        assert_eq!(plan.total_work().to_decimal(), (1u64 << (11 - word_count / 3)).to_string());
    }
}

#[test]
fn template_lines_are_trimmed_lowercased_and_checked() {
    let template = VALID_TWELVE.replacen("abandon", "  ABANDON ", 1);
    assert_eq!(MnemonicTemplate::parse(&template).unwrap().known_word_count(), 12);
    let empty = VALID_TWELVE.replacen("abandon", " ", 1);
    assert!(matches!(MnemonicTemplate::parse(&empty), Err(RecoverError::InvalidSetting(message)) if message == "mnemonic template line 1 is empty; use ? for a missing word"));
    let unknown = VALID_TWELVE.replace("about", "notaword");
    assert!(matches!(MnemonicTemplate::parse(&unknown), Err(RecoverError::InvalidSetting(message)) if message == "mnemonic template line 12 is not an English BIP39 word"));
    assert!(matches!(MnemonicTemplate::parse("abandon"), Err(RecoverError::InvalidSetting(message)) if message == "mnemonic template must contain 12, 15, 18, 21, or 24 lines; found 1"));
}

#[test]
fn a_complete_template_with_a_bad_checksum_is_refused() {
    let template = VALID_TWELVE.replace("about", "abandon");
    assert!(matches!(
        MnemonicPlan::compile(MnemonicTemplate::parse(&template).unwrap()),
        Err(RecoverError::InvalidSetting(_))
    ));
}

#[test]
fn ranks_outside_the_search_are_refused_and_remaining_work_counts_down() {
    let template = VALID_TWELVE.replace("about", "?");
    let plan = MnemonicPlan::compile(MnemonicTemplate::parse(&template).unwrap()).unwrap();
    assert!(matches!(plan.candidate_at(&BigNat::from_u128(128)), Err(RecoverError::InvalidSetting(_))));
    assert_eq!(plan.expected_candidates().to_decimal(), "128");
    let cursor = MnemonicCursor { next_rank: BigNat::from_u128(100) };
    assert_eq!(remaining_work(&plan, &cursor).to_decimal(), "28");
    let done = MnemonicCursor { next_rank: BigNat::from_u128(300) };
    assert_eq!(remaining_work(&plan, &done).to_decimal(), "0");
    let mut exhausted = MnemonicCursor { next_rank: BigNat::from_u128(128) };
    assert!(plan.next_batch(&mut exhausted, 10).unwrap().is_empty());
    assert_eq!(exhausted.next_rank.to_decimal(), "128");
}

#[test]
fn known_final_word_divides_the_expected_candidates_by_the_checksum() {
    let template = VALID_TWELVE.replacen("abandon", "?", 1);
    let plan = MnemonicPlan::compile(MnemonicTemplate::parse(&template).unwrap()).unwrap();
    assert!(plan.checksum_is_known());
    assert_eq!(plan.expected_candidates().to_decimal(), "128");
}

#[test]
fn passphrase_choice_is_explicit() {
    assert!(mnemonic_inputs(VALID_TWELVE, Some("secret\r\n".into()), true).is_err());
    assert!(mnemonic_inputs(VALID_TWELVE, None, false).is_err());
    let inputs = mnemonic_inputs(VALID_TWELVE, Some("secret\r\n\n".into()), false).unwrap();
    assert_eq!(inputs.passphrase.expose(), "secret");
    let empty = mnemonic_inputs(VALID_TWELVE, None, true).unwrap();
    assert_eq!(empty.passphrase.expose(), "");
}

fn xpub_target(phrase: &str, passphrase: &str) -> VerificationTarget {
    let mnemonic = Mnemonic::parse_in(Language::English, phrase).unwrap();
    let xpub = XPrv::new(&mnemonic.to_seed(passphrase)).unwrap().public_key();
    VerificationTarget::from_master_xpub(MasterXpubTarget::parse(&xpub.to_extended_key(Prefix::XPUB).to_string()).unwrap())
}

#[test]
fn cursor_and_match_rank_round_trip_without_plaintext_mnemonic() {
    let template = MnemonicTemplate::parse(
        "abandon\nabandon\nabandon\nabandon\nabandon\nabandon\nabandon\nabandon\nabandon\nabandon\nabandon\n?",
    )
    .unwrap();
    let plan = MnemonicPlan::compile(template).unwrap();
    let candidate = plan.candidate_at(&BigNat::zero()).unwrap().unwrap();
    let target = xpub_target(
        "abandon abandon abandon abandon abandon abandon abandon abandon abandon abandon abandon about",
        "",
    );
    let manifest = MnemonicRecoveryManifest::expected("spec".into(), &target, &plan, 1).unwrap();
    let mut state = MnemonicRecoveryState::from_parts("state".into(), manifest, MnemonicRuntimeState::default());
    let cursor = MnemonicCursor { next_rank: BigNat::from_u128(4) };
    state.complete_chunk(cursor, vec![MnemonicMatchRecord::pending(&candidate)]);

    assert_eq!(state.cursor().next_rank.to_decimal(), "4");
    assert_eq!(state.runtime().matches[0].parsed_rank().unwrap().to_decimal(), "0");
    assert!(!state.runtime().matches[0].rank.contains("abandon"));
    assert!(!state.runtime().matches[0].id.0.contains("abandon"));
    assert!(state.has_pending_matches());
    let id = state.runtime().matches[0].id.0.clone();
    state.reject_match(&id).unwrap();
    assert!(!state.has_pending_matches());
}

#[test]
fn recovers_a_missing_final_word_and_checkpoints_the_match() {
    let phrase = "abandon abandon abandon abandon abandon abandon abandon abandon abandon abandon abandon about";
    let target = xpub_target(phrase, "secret");
    let template = MnemonicTemplate::parse(
        "abandon\nabandon\nabandon\nabandon\nabandon\nabandon\nabandon\nabandon\nabandon\nabandon\nabandon\n?",
    )
    .unwrap();
    let inputs = MnemonicRecoveryInputs { template: template.clone(), passphrase: SecretPassphrase::new("secret".into()) };
    let plan = MnemonicPlan::compile(template).unwrap();
    let manifest = MnemonicRecoveryManifest::expected(mnemonic_spec_hash(&inputs, &target), &target, &plan, 1).unwrap();
    assert!(validate_mnemonic_manifest(&manifest, &manifest).is_ok());
    let mut state = MnemonicRecoveryState::from_parts("state".into(), manifest, MnemonicRuntimeState::default());
    let backend = MnemonicCpuBackend::new(&inputs.passphrase, 64);
    let verification_target = state.verification_target();

    let mut found = 0;
    loop {
        let prepared = prepare_mnemonic_batch(&plan, state.cursor(), backend.batch_size()).unwrap();
        if prepared.candidates.is_empty() {
            break;
        }
        let indices = backend.verify(&prepared.candidates, &verification_target).unwrap();
        let matches = pending_mnemonic_matches(&prepared.candidates, &indices);
        found = matches.len();
        state.complete_chunk(prepared.next_cursor, matches);
        if found > 0 {
            break;
        }
    }

    assert_eq!(found, 1);
    let match_record = &state.runtime().matches[0];
    let recovered = plan.candidate_at(&match_record.parsed_rank().unwrap()).unwrap().unwrap();
    assert_eq!(recovered.expose(), phrase);
}

#[test]
fn mnemonic_spec_hash_depends_on_the_passphrase() {
    let template = MnemonicTemplate::parse(VALID_TWELVE).unwrap();
    let target = VerificationTarget::new(TargetFingerprint::parse("00000000").unwrap(), None).unwrap();
    let first = MnemonicRecoveryInputs { template: template.clone(), passphrase: SecretPassphrase::new("a".into()) };
    let second = MnemonicRecoveryInputs { template, passphrase: SecretPassphrase::new("b".into()) };
    let a = mnemonic_spec_hash(&first, &target);
    assert_eq!(a.len(), 64);
    assert_ne!(a, mnemonic_spec_hash(&second, &target));
    assert_eq!(a, mnemonic_spec_hash(&first, &target));
}
