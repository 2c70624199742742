use recoverme::config::{config_assignments, config_path, FileConfig};
use recoverme::domain::{TargetFingerprint, TokenSlot, VerificationTarget};
use recoverme::error::RecoverError;
use recoverme::input::{
    inputs_with_recipe, line_words, normalize_written_word, parse_inputs, recovery_spec_hash,
    recovery_spec_hash_for_target, whitespace_words, RecipeDocument,
};
use recoverme::report::format_count;
use recoverme::settings::RecoverySettings;

const MNEMONIC: &str = "abandon abandon abandon abandon abandon abandon abandon abandon abandon abandon abandon abandon abandon abandon abandon abandon abandon abandon abandon abandon abandon abandon abandon art";

#[test]
fn written_words_are_normalized_without_joining_them() {
    let words = line_words("Alpha\nBRISK\n");
    let inputs = parse_inputs(&format!("{MNEMONIC}\n"), &words).unwrap();

    assert_eq!(inputs.written_words.as_slice(), &["alpha".to_owned(), "brisk".to_owned()]);
}

#[test]
fn environment_inputs_use_whitespace_separated_written_words() {
    let words = whitespace_words("Alpha  BRISK\ncactus");
    let inputs = parse_inputs(MNEMONIC, &words).unwrap();
    let fingerprint = TargetFingerprint::parse("12345678").unwrap();

    assert_eq!(
        inputs.written_words.as_slice(),
        &["alpha".to_owned(), "brisk".to_owned(), "cactus".to_owned()]
    );
    assert_eq!(fingerprint.to_hex(), "12345678");
}

#[test]
fn blank_lines_keep_their_line_numbers() {
    let words = line_words("\n  Alpha \n\n1brisk\n");
    assert_eq!(words, vec![(2, "Alpha".to_owned()), (4, "1brisk".to_owned())]);
    assert!(matches!(
        parse_inputs(MNEMONIC, &words),
        Err(RecoverError::InvalidWrittenWord { line: 4 })
    ));
    assert!(matches!(parse_inputs(MNEMONIC, &Vec::new()), Err(RecoverError::NoWrittenWords)));
    assert!(matches!(parse_inputs("abandon", &words), Err(RecoverError::InvalidMnemonic(_))));
}

#[test]
fn normalization_rejects_anything_but_ascii_letters() {
    assert_eq!(normalize_written_word(1, "MiXeD").unwrap(), "mixed");
    assert!(matches!(normalize_written_word(7, "caf\u{e9}"), Err(RecoverError::InvalidWrittenWord { line: 7 })));
    assert!(matches!(normalize_written_word(3, "two words"), Err(RecoverError::InvalidWrittenWord { line: 3 })));
}

#[test]
fn recipe_documents_are_versioned_and_validated() {
    let document = RecipeDocument {
        version: 1,
        slots: vec![(vec!["alpha".into(), "alps".into()], false), (vec!["brisk".into()], true)],
    };
    let recipe = document.into_recipe().unwrap();
    assert_eq!(recipe.slots().len(), 2);
    assert!(recipe.slots()[1].is_optional());
    let inputs = inputs_with_recipe(MNEMONIC, recipe).unwrap();
    assert_eq!(inputs.written_words.as_slice(), &["alpha".to_owned(), "brisk".to_owned()]);

    let old = RecipeDocument { version: 2, slots: vec![(vec!["alpha".into()], false)] };
    assert!(matches!(old.into_recipe(), Err(RecoverError::InvalidSetting(message)) if message == "unsupported recipe version 2"));
    let empty = RecipeDocument { version: 1, slots: vec![] };
    assert!(matches!(empty.into_recipe(), Err(RecoverError::NoWrittenWords)));
    let bad = RecipeDocument { version: 1, slots: vec![(vec!["al pha".into()], false)] };
    assert!(matches!(bad.into_recipe(), Err(RecoverError::InvalidSetting(_))));
    assert!(TokenSlot::new(vec![], false).is_err());
}

#[test]
fn spec_hash_distinguishes_settings_and_targets() {
    let words = line_words("alpha\nbrisk\n");
    let inputs = parse_inputs(MNEMONIC, &words).unwrap();
    let fingerprint = TargetFingerprint::parse("12345678").unwrap();
    let settings = RecoverySettings::default();
    let hash = recovery_spec_hash(&inputs, fingerprint, &settings);
    assert_eq!(hash.len(), 64);
    assert!(hash.chars().all(|c| c.is_ascii_hexdigit() && !c.is_ascii_uppercase()));
    let target = VerificationTarget::new(fingerprint, None).unwrap();
    assert_eq!(hash, recovery_spec_hash_for_target(&inputs, &target, &settings));
    let changed = RecoverySettings { max_replacements: 1, ..RecoverySettings::default() };
    assert_ne!(hash, recovery_spec_hash(&inputs, fingerprint, &changed));
    let other = TargetFingerprint::parse("12345679").unwrap();
    assert_ne!(hash, recovery_spec_hash(&inputs, other, &settings));
}

#[test]
fn config_path_comes_from_arguments_before_the_environment() {
    let arguments = |list: &[&str]| list.iter().map(|a| a.to_string()).collect::<Vec<_>>();
    assert_eq!(config_path(&arguments(&["plan", "--config", "a.toml"]), Some("env.toml".into())), Some("a.toml".into()));
    assert_eq!(config_path(&arguments(&["--config=b.toml", "--config", "c"]), None), Some("b.toml".into()));
    assert_eq!(config_path(&arguments(&["plan"]), Some("env.toml".into())), Some("env.toml".into()));
    assert_eq!(config_path(&arguments(&["plan", "--config"]), Some("env.toml".into())), None);
}

#[test]
fn config_defaults_become_environment_assignments() {
    let config = FileConfig {
        state_dir: Some("state".into()),
        max_replacements: Some(3),
        spacing: Some("coldcard".into()),
        empty_passphrase: Some(false),
        lowercase_already_tried: Some(true),
        ..FileConfig::default()
    };
    assert_eq!(
        config_assignments(&config),
        vec![
            ("RECOVERME_STATE_DIR".to_owned(), "state".to_owned()),
            ("RECOVERME_MAX_REPLACEMENTS".to_owned(), "3".to_owned()),
            ("RECOVERME_LOWERCASE_ALREADY_TRIED".to_owned(), "true".to_owned()),
            ("RECOVERME_SPACING".to_owned(), "coldcard".to_owned()),
        ]
    );
    let empty = FileConfig { empty_passphrase: Some(true), ..FileConfig::default() };
    assert_eq!(config_assignments(&empty), vec![("RECOVERME_EMPTY_PASSPHRASE".to_owned(), "true".to_owned())]);
}

#[test]
fn counts_are_grouped_in_thousands() {
    assert_eq!(format_count(0), "0");
    assert_eq!(format_count(999), "999");
    assert_eq!(format_count(1_000), "1,000");
    assert_eq!(format_count(1_234_567), "1,234,567");
    assert_eq!(format_count(u128::MAX), "340,282,366,920,938,463,463,374,607,431,768,211,455");
}
