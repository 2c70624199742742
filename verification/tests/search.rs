use std::collections::HashSet;

use recoverme::bases::local_permutations;
use recoverme::casing::{case_pattern_at, case_pattern_rank, CaseVariant};
use recoverme::combinatorics::{binomial, rank_combination, unrank_combination};
use recoverme::error::RecoverError;
use recoverme::domain::{Candidate, CandidateCursor, PermutationCursor, RecoveryRecipe, TokenSlot, WrittenWords};
use recoverme::multiset::unrank_multiset_permutation;
use recoverme::neighbors::nearest_words;
use recoverme::phase::SearchPhase;
use recoverme::search::RecoveryPlan;
use recoverme::settings::{OrderMode, RecoverySettings, SpacingMode};
use recoverme::trie::TokenTrie;

fn words(list: &[&str]) -> WrittenWords {
    WrittenWords::new(list.iter().map(|word| word.to_string()).collect()).unwrap()
}

fn passphrases(candidates: &[Candidate]) -> Vec<String> {
    candidates.iter().map(|candidate| candidate.passphrase().to_owned()).collect()
}

fn cursor_to_json(cursor: &CandidateCursor) -> Vec<u8> {
    let mut map = serde_json::Map::new();
    map.insert("phase".into(), serde_json::Value::String(cursor.phase.name()));
    map.insert("base_index".into(), serde_json::Value::from(cursor.base_index as u64));
    let mut permutation = serde_json::Map::new();
    match cursor.permutation {
        PermutationCursor::Local { index } => {
            permutation.insert("kind".into(), serde_json::Value::String("local".into()));
            permutation.insert("index".into(), serde_json::Value::from(index as u64));
        }
        PermutationCursor::Lexical { rank } => {
            permutation.insert("kind".into(), serde_json::Value::String("lexical".into()));
            permutation.insert("rank".into(), serde_json::Value::String(rank.to_string()));
        }
    }
    map.insert("permutation".into(), serde_json::Value::Object(permutation));
    map.insert("case_rank".into(), serde_json::Value::String(cursor.case_rank.to_string()));
    map.insert("spacing_rank".into(), serde_json::Value::String(cursor.spacing_rank.to_string()));
    map.insert("completed".into(), serde_json::Value::String(cursor.completed.to_string()));
    serde_json::to_vec(&serde_json::Value::Object(map)).unwrap()
}

fn cursor_from_json(bytes: &[u8]) -> CandidateCursor {
    let value: serde_json::Value = serde_json::from_slice(bytes).unwrap();
    let text = |key: &str| value[key].as_str().unwrap().to_owned();
    let phase = SearchPhase::parse_name(&text("phase")).unwrap();
    let permutation = match value["permutation"]["kind"].as_str().unwrap() {
        "local" => PermutationCursor::Local {
            index: value["permutation"]["index"].as_u64().unwrap() as usize,
        },
        _ => PermutationCursor::Lexical {
            rank: value["permutation"]["rank"].as_str().unwrap().parse().unwrap(),
        },
    };
    CandidateCursor {
        phase,
        base_index: value["base_index"].as_u64().unwrap() as usize,
        permutation,
        case_rank: text("case_rank").parse().unwrap(),
        spacing_rank: text("spacing_rank").parse().unwrap(),
        completed: text("completed").parse().unwrap(),
    }
}

#[test]
fn written_phases_have_exact_disjoint_counts() {
    let words = words(&["alpha", "brisk"]);
    let plan = RecoveryPlan::compile(&words, RecoverySettings::default()).unwrap();
    let summaries = plan.phase_summaries();

    assert_eq!(summaries[0].count, 2);
    assert_eq!(summaries[1].count, 16);

    let mut cursor = CandidateCursor::default();
    let candidates = plan.next_batch(&mut cursor, SearchPhase::WrittenCase, 100).unwrap();
    let unique = passphrases(&candidates).into_iter().collect::<HashSet<_>>();
    assert_eq!(candidates.len(), 18);
    assert_eq!(unique.len(), 18);
    assert!(!candidates.iter().any(|candidate| candidate.passphrase().contains(' ')));
}

#[test]
fn prefix_free_fast_path_matches_canonical_enumeration() {
    let words = words(&["alpha", "brisk", "cactus", "daring"]);
    let fast = RecoveryPlan::compile(&words, RecoverySettings::default()).unwrap();
    assert!(!fast.canonical_check_required());
    let mut reference = fast.clone();
    reference.require_canonical_check();
    let mut fast_cursor = CandidateCursor::default();
    let mut reference_cursor = CandidateCursor::default();

    let fast_candidates = fast.next_batch(&mut fast_cursor, SearchPhase::WrittenCase, 4_096).unwrap();
    let reference_candidates = reference
        .next_batch(&mut reference_cursor, SearchPhase::WrittenCase, 4_096)
        .unwrap();

    assert_eq!(fast_cursor, reference_cursor);
    assert_eq!(passphrases(&fast_candidates), passphrases(&reference_candidates));
}

#[test]
fn local_permutations_start_with_nearby_moves() {
    let words = vec![b"a".to_vec(), b"b".to_vec(), b"c".to_vec()];
    let permutations = local_permutations(&words, 1);

    assert_eq!(permutations[0], vec![b"a".to_vec(), b"b".to_vec(), b"c".to_vec()]);
    assert_eq!(permutations[1], vec![b"b".to_vec(), b"a".to_vec(), b"c".to_vec()]);
    assert_eq!(permutations[2], vec![b"a".to_vec(), b"c".to_vec(), b"b".to_vec()]);
}

#[test]
fn nearest_words_use_bip39_order_to_break_distance_ties() {
    let words = words(&["wive"]);
    let suggestions = nearest_words(words.as_slice(), 3);

    assert_eq!(
        suggestions[0]
            .neighbors
            .iter()
            .map(|neighbor| (neighbor.word.as_str(), neighbor.distance))
            .collect::<Vec<_>>(),
        [("give", 1), ("live", 1), ("wave", 1)]
    );
}

#[test]
fn case_ranking_prefers_uniform_title_and_upper() {
    assert_eq!(case_pattern_at(2, 0).unwrap(), vec![CaseVariant::Title, CaseVariant::Title]);
    assert_eq!(case_pattern_at(2, 1).unwrap(), vec![CaseVariant::Upper, CaseVariant::Upper]);
    let patterns = (0..8).map(|rank| case_pattern_at(2, rank).unwrap()).collect::<HashSet<_>>();
    assert_eq!(patterns.len(), 8);
}

#[test]
fn multiset_unranking_is_unique_and_lexical() {
    let words: Vec<String> = vec!["b".into(), "a".into(), "a".into()];
    let permutations = (0..3)
        .map(|rank| unrank_multiset_permutation(&words, rank).unwrap())
        .collect::<Vec<_>>();
    assert_eq!(permutations, vec![vec!["a", "a", "b"], vec!["a", "b", "a"], vec!["b", "a", "a"]]);
}

#[test]
fn serialized_cursor_resumes_at_the_exact_next_candidate() {
    let words = words(&["alpha", "brisk"]);
    let plan = RecoveryPlan::compile(&words, RecoverySettings::default()).unwrap();
    let mut uninterrupted_cursor = CandidateCursor::default();
    let uninterrupted = plan
        .next_batch(&mut uninterrupted_cursor, SearchPhase::NeighborLower(1), 32)
        .unwrap();

    let mut interrupted_cursor = CandidateCursor::default();
    let prefix = plan
        .next_batch(&mut interrupted_cursor, SearchPhase::NeighborLower(1), 7)
        .unwrap();
    let checkpoint = cursor_to_json(&interrupted_cursor);
    let mut resumed_cursor = cursor_from_json(&checkpoint);
    let suffix = plan
        .next_batch(&mut resumed_cursor, SearchPhase::NeighborLower(1), 25)
        .unwrap();

    let resumed_ids = prefix
        .iter()
        .chain(&suffix)
        .map(|candidate| candidate.id().clone())
        .collect::<Vec<_>>();
    let uninterrupted_ids = uninterrupted
        .iter()
        .map(|candidate| candidate.id().clone())
        .collect::<Vec<_>>();
    assert_eq!(resumed_ids, uninterrupted_ids);
    assert_eq!(resumed_cursor, uninterrupted_cursor);
}

#[test]
fn replacement_and_case_phases_do_not_repeat_passphrase_bytes() {
    let words = words(&["alpha", "brisk"]);
    let plan = RecoveryPlan::compile(&words, RecoverySettings::default()).unwrap();
    let expected = plan.count_through(SearchPhase::NeighborCase(2)).unwrap();
    let mut cursor = CandidateCursor::default();
    let candidates = plan
        .next_batch(&mut cursor, SearchPhase::NeighborCase(2), expected as usize)
        .unwrap();
    let unique = passphrases(&candidates).into_iter().collect::<HashSet<_>>();

    assert_eq!(candidates.len() as u128, expected);
    assert_eq!(unique.len(), candidates.len());
}

#[test]
fn ambiguous_word_boundaries_emit_only_the_earliest_candidate() {
    let words = words(&["car", "dice"]);
    let plan = RecoveryPlan::compile(&words, RecoverySettings::default()).unwrap();
    let expected = plan.count_through(SearchPhase::NeighborCase(2)).unwrap();
    let mut cursor = CandidateCursor::default();
    let candidates = plan
        .next_batch(&mut cursor, SearchPhase::NeighborCase(2), expected as usize)
        .unwrap();
    let collisions = candidates
        .iter()
        .filter(|candidate| candidate.passphrase() == "cardice")
        .collect::<Vec<_>>();

    assert_eq!(candidates.len() as u128, expected);
    assert_eq!(collisions.len(), 1);
    assert_eq!(collisions[0].phase(), SearchPhase::WrittenLower);
    assert_eq!(collisions[0].words(), ["car", "dice"]);
}

#[test]
fn identical_title_and_upper_bytes_are_counted_once() {
    let words = words(&["a"]);
    let settings = RecoverySettings { max_replacements: 0, ..RecoverySettings::default() };
    let plan = RecoveryPlan::compile(&words, settings).unwrap();
    let summaries = plan.phase_summaries();
    assert_eq!(summaries[0].count, 1);
    assert_eq!(summaries[1].count, 1);

    let mut cursor = CandidateCursor::default();
    let candidates = plan.next_batch(&mut cursor, SearchPhase::WrittenCase, 10).unwrap();
    assert_eq!(passphrases(&candidates), ["a", "A"]);
}

#[test]
fn candidates_over_the_coldcard_limit_are_excluded_from_counts() {
    let words = words(&["alphabet", "another"]);
    let settings = RecoverySettings {
        max_replacements: 0,
        max_passphrase_bytes: 10,
        ..RecoverySettings::default()
    };
    let plan = RecoveryPlan::compile(&words, settings).unwrap();

    assert_eq!(plan.count_through(SearchPhase::WrittenCase).unwrap(), 0);
}

#[test]
fn completed_lowercase_work_is_excluded_from_the_plan() {
    let words = words(&["alpha", "brisk"]);
    let settings = RecoverySettings { lowercase_already_tried: true, ..RecoverySettings::default() };
    let plan = RecoveryPlan::compile(&words, settings).unwrap();
    let phases = plan
        .phase_summaries()
        .into_iter()
        .map(|summary| summary.phase)
        .collect::<Vec<_>>();

    assert_eq!(
        phases,
        [SearchPhase::WrittenCase, SearchPhase::NeighborCase(1), SearchPhase::NeighborCase(2)]
    );
    let mut cursor = CandidateCursor::default();
    let first = plan.next_batch(&mut cursor, SearchPhase::WrittenCase, 1).unwrap();
    assert_eq!(first[0].passphrase(), "AlphaBrisk");
}

#[test]
fn coldcard_spacing_covers_every_leading_space_pattern() {
    let words = words(&["alpha", "brisk"]);
    let settings = RecoverySettings {
        max_replacements: 0,
        spacing: SpacingMode::Coldcard,
        ..RecoverySettings::default()
    };
    let plan = RecoveryPlan::compile(&words, settings).unwrap();
    assert_eq!(plan.phase_summaries()[0].count, 8);

    let mut cursor = CandidateCursor::default();
    let candidates = plan.next_batch(&mut cursor, SearchPhase::WrittenLower, 8).unwrap();
    let unique = passphrases(&candidates).into_iter().collect::<HashSet<_>>();
    assert_eq!(unique.len(), 8);
    assert!(unique.contains("alphabrisk"));
    assert!(unique.contains("alpha brisk"));
    assert!(unique.contains(" alphabrisk"));
    assert!(unique.contains(" alpha brisk"));
}

#[test]
fn completed_concatenated_pattern_is_excluded_only_from_spacing() {
    let words = words(&["alpha", "brisk"]);
    let settings = RecoverySettings {
        max_replacements: 0,
        spacing: SpacingMode::Coldcard,
        concatenated_already_tried: true,
        ..RecoverySettings::default()
    };
    let plan = RecoveryPlan::compile(&words, settings).unwrap();
    assert_eq!(plan.phase_summaries()[0].count, 6);

    let mut cursor = CandidateCursor::default();
    let candidates = plan.next_batch(&mut cursor, SearchPhase::WrittenLower, 10).unwrap();
    assert!(candidates.iter().all(|candidate| candidate.passphrase().contains(' ')));
}

#[test]
fn recipe_alternatives_and_optional_slots_are_ranked_and_deduplicated() {
    let recipe = RecoveryRecipe::new(vec![
        TokenSlot::new(vec!["alpha".into(), "alps".into()], false).unwrap(),
        TokenSlot::new(vec!["brisk".into()], true).unwrap(),
    ])
    .unwrap();
    let settings = RecoverySettings {
        max_replacements: 0,
        order: OrderMode::Written,
        ..RecoverySettings::default()
    };
    let plan = RecoveryPlan::compile_recipe(&recipe, settings).unwrap();
    assert_eq!(plan.phase_summaries()[0].count, 4);

    let mut cursor = CandidateCursor::default();
    let candidates = plan.next_batch(&mut cursor, SearchPhase::WrittenLower, 10).unwrap();
    assert_eq!(passphrases(&candidates), ["alphabrisk", "alpsbrisk", "alpha", "alps"]);
}

#[test]
fn replacement_phases_extend_to_the_configured_slot_count() {
    let words = words(&["alpha", "brisk", "cactus"]);
    let settings = RecoverySettings {
        neighbors_per_word: 1,
        max_replacements: 3,
        order: OrderMode::Written,
        ..RecoverySettings::default()
    };
    let plan = RecoveryPlan::compile(&words, settings).unwrap();
    let summaries = plan.phase_summaries();
    assert!(
        summaries
            .iter()
            .any(|summary| summary.phase == SearchPhase::NeighborLower(3) && summary.count > 0),
        "{summaries:?}"
    );

    let limit = plan.count_through(SearchPhase::NeighborLower(3)).unwrap() as usize;
    let mut cursor = CandidateCursor::default();
    let candidates = plan
        .next_batch(&mut cursor, SearchPhase::NeighborLower(3), limit)
        .unwrap();
    assert!(
        candidates
            .iter()
            .any(|candidate| candidate.phase() == SearchPhase::NeighborLower(3)),
        "summaries={summaries:?} limit={limit}"
    );
}

#[test]
fn phase_names_parse_back_exactly() {
    for phase in SearchPhase::all(12) {
        assert_eq!(SearchPhase::parse_name(&phase.name()), Some(phase));
    }
    assert_eq!(SearchPhase::parse_name("neighbor-12-case"), Some(SearchPhase::NeighborCase(12)));
    assert_eq!(SearchPhase::parse_name("neighbor-01-lower"), None);
    assert_eq!(SearchPhase::parse_name("neighbor--lower"), None);
    assert_eq!(SearchPhase::parse_name("neighbor-1-upper"), None);
    assert_eq!(SearchPhase::parse_name("written"), None);
    assert_eq!(SearchPhase::parse_name("neighbor-99999999999999999999999-case"), None);
}

#[test]
fn trie_lists_every_split_of_a_passphrase() {
    let trie = TokenTrie::new(vec![b"ab".to_vec(), b"a".to_vec(), b"b".to_vec()]);
    let mut splits = trie
        .parse(&b"aB b".to_vec())
        .into_iter()
        .map(|split| (split.words, split.variants, split.spacing_mask))
        .collect::<Vec<_>>();
    splits.sort();
    assert_eq!(
        splits,
        vec![(vec![b"a".to_vec(), b"b".to_vec(), b"b".to_vec()], vec![1, 6, 1], 0b100)]
    );
    let both = trie.parse(&b"Ab".to_vec());
    let mut readings = both.iter().map(|split| (split.words.clone(), split.variants.clone())).collect::<Vec<_>>();
    readings.sort();
    assert_eq!(
        readings,
        vec![(vec![b"a".to_vec(), b"b".to_vec()], vec![6, 1]), (vec![b"ab".to_vec()], vec![2])]
    );
    assert!(trie.parse(&b"a  b".to_vec()).is_empty());
    assert!(trie.parse(&b"abc".to_vec()).is_empty());
}

#[test]
fn written_words_are_kept_as_given() {
    assert!(matches!(WrittenWords::new(Vec::new()), Err(RecoverError::NoWrittenWords)));
    let kept = WrittenWords::new(vec!["alpha".to_string(), "".to_string(), "Two words".to_string()]).unwrap();
    assert_eq!(kept.as_slice(), ["alpha", "", "Two words"]);
    assert_eq!(kept.word_count(), 3);
    assert!(matches!(
        RecoveryPlan::compile(&kept, RecoverySettings::default()),
        Err(RecoverError::InvalidWrittenWord { line: 2 })
    ));
}

#[test]
fn coldcard_spacing_lists_every_pattern_for_twenty_one_words() {
    let patterns = recoverme::spacing::spacing_patterns(21, SpacingMode::Coldcard, false).unwrap();
    assert_eq!(patterns.len(), 1 << 21);
    assert_eq!(patterns[0], 0);
    assert_eq!(patterns[1], (1u128 << 21) - 2);
    let distinct = patterns.iter().collect::<HashSet<_>>();
    assert_eq!(distinct.len(), 1 << 21);
}

#[test]
fn local_permutations_reach_every_order_within_the_radius() {
    let words = vec![b"a".to_vec(), b"b".to_vec(), b"c".to_vec()];
    assert_eq!(local_permutations(&words, 1).len(), 3);
    assert_eq!(local_permutations(&words, 2).len(), 5);
    let all = local_permutations(&words, 3);
    assert_eq!(all.len(), 6);
    assert_eq!(all.iter().collect::<HashSet<_>>().len(), 6);
    assert_eq!(local_permutations(&words, 0).len(), 1);
}

#[test]
fn long_case_patterns_rank_and_unrank_exactly() {
    let mut pattern = vec![CaseVariant::Lower; 40];
    pattern[3] = CaseVariant::Title;
    pattern[17] = CaseVariant::Title;
    pattern[25] = CaseVariant::Upper;
    let rank = case_pattern_rank(&pattern).unwrap();
    assert_eq!(case_pattern_at(40, rank).unwrap(), pattern);
    assert_eq!(case_pattern_rank(&case_pattern_at(40, rank + 1).unwrap()).unwrap(), rank + 1);
}

#[test]
fn case_pattern_rank_reports_ranks_beyond_u128() {
    let mut pattern = vec![CaseVariant::Title; 200];
    pattern[0] = CaseVariant::Lower;
    assert!(matches!(case_pattern_rank(&pattern), Err(RecoverError::CountOverflow)));
}

#[test]
fn binomial_coefficients_are_exact() {
    assert_eq!(binomial(100, 50).unwrap(), 100_891_344_545_564_193_334_812_497_256);
    assert_eq!(binomial(100, 3).unwrap(), 161_700);
    assert_eq!(binomial(7, 7).unwrap(), 1);
}

#[test]
fn large_combinations_round_trip_through_their_rank() {
    let positions = unrank_combination(100, 50, 123_456_789_012_345).unwrap();
    assert_eq!(positions.len(), 50);
    assert_eq!(rank_combination(100, &positions).unwrap(), 123_456_789_012_345);
    let last = unrank_combination(100, 3, 161_699).unwrap();
    assert_eq!(last, vec![97, 98, 99]);
    assert!(matches!(unrank_combination(100, 3, 161_700), Err(RecoverError::CountOverflow)));
}

#[test]
fn local_permutations_come_by_swap_distance() {
    let start: Vec<Vec<u8>> = ["a", "b", "c", "d"].iter().map(|word| word.as_bytes().to_vec()).collect();
    let orders = local_permutations(&start, 2);
    let spelled: Vec<String> = orders.iter().map(|order| order.iter().map(|word| String::from_utf8(word.clone()).unwrap()).collect::<String>()).collect();
    assert_eq!(spelled, vec!["abcd", "bacd", "acbd", "abdc", "bcad", "badc", "cabd", "acdb", "adbc"]);
}
