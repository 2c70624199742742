//! Immutable, deterministic recovery search plan and its candidate stream

use vstd::prelude::*;

use crate::bases::{
    lemma_keys_letters, base_plan_valid, deep_lists, drawn_from, letter_words, ranked_bases, recipe_bases, recipe_lists,
    replacement_of, BasePlan, MultisetKey, Neighbor, PhasePlan,
};
use crate::bytes::{copy_bytes, copy_indices, copy_words, deep, is_ascii_letter, is_letter_token, total_len};
use crate::casing::{
    apply_case_pattern, apply_pattern, case_pattern_at, case_pattern_count, minimum_case_rank, pow_nat,
    transformed, variant_bit, CaseVariant,
};
use crate::combinatorics::{arrangements, count_sum, is_arrangement};
use crate::domain::{Candidate, CandidateCursor, PermutationCursor, PhaseSummary, RecoveryRecipe, TokenSlot, WrittenWords};
use crate::error::RecoverError;
use crate::language::{phases_valid, unique_phase_counts};
use crate::multiset::{distinct_with_counts, rank_words, spells, unrank_words};
use crate::neighbors::{lemma_lowercase_bytes, nearest_words, NeighborSuggestion};
use crate::phase::{phase_name, phase_enabled, phase_le, phase_lt, spec_includes_case_variants, spec_replacement_count, SearchPhase};
use crate::settings::{OrderMode, RecoverySettings, SpacingMode};
use crate::spacing::{apply_spacing, spaced, spacing_patterns, spacing_patterns_spec, spacing_rank};
use crate::text::{ascii_strings, is_ascii_bytes, string_bytes, utf8, utf8_all};
use vstd::utf8::encode_utf8;

verus! {

/// Largest number of slots a recipe may have
pub const MAX_RECIPE_SLOTS: usize = 100;

/// Largest accepted number of neighbors per written token
pub const MAX_NEIGHBORS_PER_WORD: usize = 2047;

/// Settings a recipe of `slot_count` slots can be searched with
pub open spec fn settings_valid(slot_count: nat, settings: RecoverySettings) -> bool {
    &&& 1 <= settings.neighbors_per_word <= MAX_NEIGHBORS_PER_WORD
    &&& settings.max_replacements <= slot_count
    &&& settings.max_passphrase_bytes > 0
    &&& settings.concatenated_already_tried ==> (settings.spacing == SpacingMode::Both || settings.spacing
        == SpacingMode::Coldcard)
    &&& slot_count <= MAX_RECIPE_SLOTS
}

/// Reject settings that define no searchable candidate space
pub fn validate_settings(slot_count: usize, settings: &RecoverySettings) -> (result: Result<(), RecoverError>)
    ensures
        result is Ok <==> settings_valid(slot_count as nat, *settings),
        result matches Err(error) ==> error is InvalidSetting,
{
    if settings.neighbors_per_word == 0 || settings.neighbors_per_word > MAX_NEIGHBORS_PER_WORD {
        return Err(RecoverError::InvalidSetting(String::from_str("neighbors-per-word must be between 1 and 2047")));
    }
    if settings.max_replacements > slot_count {
        return Err(
            RecoverError::InvalidSetting(
                String::from_str("max-replacements cannot exceed the number of recipe slots"),
            ),
        );
    }
    if settings.max_passphrase_bytes == 0 {
        return Err(RecoverError::InvalidSetting(String::from_str("max-passphrase-bytes must be positive")));
    }
    if settings.concatenated_already_tried && !(settings.spacing == SpacingMode::Both || settings.spacing
        == SpacingMode::Coldcard) {
        return Err(
            RecoverError::InvalidSetting(
                String::from_str("concatenated-already-tried requires spacing=both or spacing=coldcard"),
            ),
        );
    }
    if slot_count > MAX_RECIPE_SLOTS {
        return Err(RecoverError::InvalidSetting(String::from_str("a recovery recipe may contain at most 100 slots")));
    }
    Ok(())
}

/// A word order of a base: one of its local orders, or, when permuting,
/// any arrangement of its multiset
pub open spec fn order_of_base(base: BasePlan, mode: OrderMode, order: Seq<Seq<u8>>) -> bool {
    ||| exists|i: int| 0 <= i < base.local_permutations@.len() && order == deep(#[trigger] base.local_permutations@[i]@)
    ||| (mode == OrderMode::Permuted && exists|p: Seq<usize>|
        is_arrangement(base.counts@, p) && #[trigger] spells(deep(base.keys@), p, order))
}

/// The word order of a base at a permutation cursor: the local order of that
/// index, or the arrangement of that lexical rank when no local order spells
/// it
pub open spec fn order_at(base: BasePlan, permutation: PermutationCursor, order: Seq<Seq<u8>>) -> bool {
    match permutation {
        PermutationCursor::Local { index } => index < base.local_permutations@.len() && order == deep(
            base.local_permutations@[index as int]@,
        ),
        PermutationCursor::Lexical { rank } => {
            &&& rank < base.lexical_count
            &&& !deep_lists(base.local_permutations@).contains(order)
            &&& exists|p: Seq<usize>|
                is_arrangement(base.counts@, p) && crate::combinatorics::lex_rank(base.counts@, p) == rank
                    && #[trigger] spells(deep(base.keys@), p, order)
        },
    }
}

/// The candidate words and passphrase bytes a base yields in a phase: an
/// order of the base, cased by a pattern in case phases, joined by a spacing
/// pattern of the mode, within the passphrase limit
pub open spec fn base_yields(
    base: BasePlan,
    settings: RecoverySettings,
    phase: SearchPhase,
    words: Seq<Seq<u8>>,
    passphrase: Seq<u8>,
) -> bool {
    exists|order: Seq<Seq<u8>>, pattern: Seq<CaseVariant>, patterns: Seq<u128>, mask: u128|
        #![trigger order_of_base(base, settings.order, order), apply_pattern(order, pattern), spaced(words, mask), spacing_patterns_spec(words.len(), settings.spacing, settings.concatenated_already_tried, patterns)]
        {
            &&& order_of_base(base, settings.order, order)
            &&& if spec_includes_case_variants(phase) {
                pattern.len() == order.len() && words == apply_pattern(order, pattern)
            } else {
                words == order
            }
            &&& spacing_patterns_spec(words.len(), settings.spacing, settings.concatenated_already_tried, patterns)
            &&& patterns.contains(mask)
            &&& passphrase == spaced(words, mask)
            &&& passphrase.len() <= settings.max_passphrase_bytes
        }
}

/// Where a base was first planned: its replacement count and index
#[derive(Clone)]
pub struct BaseLocator {
    pub keys: Vec<Vec<u8>>,
    pub counts: Vec<usize>,
    pub replacements: usize,
    pub base_index: usize,
}

/// Position of a candidate in the enumeration order
#[derive(Clone, Copy, PartialEq, Eq, Structural)]
pub enum PermutationOrder {
    Local(usize),
    Lexical(u128),
}

/// Enumeration position of a candidate, compared lexicographically
#[derive(Clone, Copy, PartialEq, Eq, Structural)]
pub struct DerivationKey {
    pub phase_index: usize,
    pub base_index: usize,
    pub permutation: PermutationOrder,
    pub case_rank: u128,
    pub spacing_rank: u128,
}

pub open spec fn order_lt(a: PermutationOrder, b: PermutationOrder) -> bool {
    match (a, b) {
        (PermutationOrder::Local(x), PermutationOrder::Local(y)) => x < y,
        (PermutationOrder::Local(_), PermutationOrder::Lexical(_)) => true,
        (PermutationOrder::Lexical(_), PermutationOrder::Local(_)) => false,
        (PermutationOrder::Lexical(x), PermutationOrder::Lexical(y)) => x < y,
    }
}

pub open spec fn key_lt(a: DerivationKey, b: DerivationKey) -> bool {
    a.phase_index < b.phase_index || (a.phase_index == b.phase_index && (a.base_index < b.base_index || (
    a.base_index == b.base_index && (order_lt(a.permutation, b.permutation) || (a.permutation == b.permutation && (
    a.case_rank < b.case_rank || (a.case_rank == b.case_rank && a.spacing_rank < b.spacing_rank)))))))
}

/// `a` precedes `b` among the orders of a base: local orders first, by index,
/// then lexical orders, by rank
pub open spec fn permutation_lt(a: PermutationCursor, b: PermutationCursor) -> bool {
    match (a, b) {
        (PermutationCursor::Local { index: x }, PermutationCursor::Local { index: y }) => x < y,
        (PermutationCursor::Local { .. }, PermutationCursor::Lexical { .. }) => true,
        (PermutationCursor::Lexical { .. }, PermutationCursor::Local { .. }) => false,
        (PermutationCursor::Lexical { rank: x }, PermutationCursor::Lexical { rank: y }) => x < y,
    }
}

fn order_less(a: PermutationOrder, b: PermutationOrder) -> (lt: bool)
    ensures
        lt == order_lt(a, b),
{
    match (a, b) {
        (PermutationOrder::Local(x), PermutationOrder::Local(y)) => x < y,
        (PermutationOrder::Local(_), PermutationOrder::Lexical(_)) => true,
        (PermutationOrder::Lexical(_), PermutationOrder::Local(_)) => false,
        (PermutationOrder::Lexical(x), PermutationOrder::Lexical(y)) => x < y,
    }
}

fn key_less(a: &DerivationKey, b: &DerivationKey) -> (lt: bool)
    ensures
        lt == key_lt(*a, *b),
{
    if a.phase_index != b.phase_index {
        return a.phase_index < b.phase_index;
    }
    if a.base_index != b.base_index {
        return a.base_index < b.base_index;
    }
    if a.permutation != b.permutation {
        return order_less(a.permutation, b.permutation);
    }
    if a.case_rank != b.case_rank {
        return a.case_rank < b.case_rank;
    }
    a.spacing_rank < b.spacing_rank
}

fn key_equal(a: &DerivationKey, b: &DerivationKey) -> (eq: bool)
    ensures
        eq == (*a == *b),
{
    a.phase_index == b.phase_index && a.base_index == b.base_index && a.permutation == b.permutation
        && a.case_rank == b.case_rank && a.spacing_rank == b.spacing_rank
}

/// The order of a base at a permutation cursor, cached across case and
/// spacing patterns
struct CachedPermutation {
    plan_index: usize,
    phase: SearchPhase,
    base_index: usize,
    cursor: PermutationCursor,
    words: Vec<Vec<u8>>,
    order: PermutationOrder,
}

/// Immutable, deterministic recovery search plan
#[derive(Clone)]
pub struct RecoveryPlan {
    settings: RecoverySettings,
    suggestions: Vec<NeighborSuggestion>,
    phases: Vec<PhasePlan>,
    trie: crate::trie::TokenTrie,
    base_lookup: Vec<BaseLocator>,
    canonical_check_required: bool,
}


/// Case forms of letter tokens are letter tokens
pub proof fn lemma_transformed_letters(word: Seq<u8>, variant: CaseVariant)
    requires
        is_letter_token(word),
    ensures
        is_letter_token(transformed(word, variant)),
        transformed(word, variant).len() == word.len(),
{
    let t = transformed(word, variant);
    assert forall|i: int| 0 <= i < t.len() implies is_ascii_letter(#[trigger] t[i]) by {
        assert(is_ascii_letter(word[i]));
    }
}

/// Letter tokens joined with spaces are ASCII
pub proof fn lemma_spaced_ascii(words: Seq<Seq<u8>>, mask: u128)
    requires
        forall|k: int| 0 <= k < words.len() ==> is_letter_token(#[trigger] words[k]),
    ensures
        is_ascii_bytes(spaced(words, mask)),
    decreases words.len(),
{
    if words.len() > 0 {
        lemma_spaced_ascii(words.drop_last(), mask);
        let last = words.last();
        assert(is_letter_token(words[words.len() - 1]));
        let rest = spaced(words.drop_last(), mask);
        let all = spaced(words, mask);
        assert forall|i: int| 0 <= i < all.len() implies #[trigger] all[i] < 128 by {
            if i < rest.len() {
                assert(all[i] == rest[i]);
            } else {
                let mid = all.len() - last.len();
                if i >= mid {
                    assert(all[i] == last[i - mid]);
                    assert(is_ascii_letter(last[i - mid]));
                }
            }
        }
    }
}

/// The cached order is an order of the base at its recorded place
spec fn cache_valid(plan: RecoveryPlan, cache: Option<CachedPermutation>) -> bool {
    cache matches Some(c) ==> {
        &&& c.plan_index < plan.phases@.len()
        &&& plan.phases@[c.plan_index as int].phase == c.phase
        &&& c.base_index < plan.phases@[c.plan_index as int].bases@.len()
        &&& order_of_base(
            plan.phases@[c.plan_index as int].bases@[c.base_index as int],
            plan.settings.order,
            deep(c.words@),
        )
        &&& letter_words(deep(c.words@))
        &&& order_at(plan.phases@[c.plan_index as int].bases@[c.base_index as int], c.cursor, deep(c.words@))
        &&& order_names(c.order, c.cursor)
    }
}

/// An order's place agrees with a permutation cursor
spec fn order_names(order: PermutationOrder, cursor: PermutationCursor) -> bool {
    match order {
        PermutationOrder::Local(i) => cursor == (PermutationCursor::Local { index: i }),
        PermutationOrder::Lexical(r) => cursor == (PermutationCursor::Lexical { rank: r }),
    }
}

/// The order of a base at a permutation cursor, skipping lexical orders that
/// the local prefix already produced; `None` when the base is exhausted
fn current_permutation(base: &BasePlan, cursor: &mut PermutationCursor, mode: OrderMode) -> (result: Result<
    Option<(Vec<Vec<u8>>, PermutationOrder)>,
    RecoverError,
>)
    requires
        base_plan_valid(*base, mode),
    ensures
        match result {
            Ok(Some((words, order))) => {
                &&& order_of_base(*base, mode, deep(words@))
                &&& order_at(*base, *final(cursor), deep(words@))
                &&& *old(cursor) == *final(cursor) || permutation_lt(*old(cursor), *final(cursor))
                &&& letter_words(deep(words@))
                &&& match order {
                    PermutationOrder::Local(i) => *final(cursor) == (PermutationCursor::Local { index: i })
                        && i < base.local_permutations@.len(),
                    PermutationOrder::Lexical(r) => *final(cursor) == (PermutationCursor::Lexical { rank: r })
                        && r < base.lexical_count,
                }
            },
            Ok(None) => {
                &&& *old(cursor) matches PermutationCursor::Local { index } ==> index >= base.local_permutations@.len()
                &&& forall|r: u128|
                    first_lexical_rank(*old(cursor)) <= r < base.lexical_count ==> #[trigger] local_rank(*base, r)
            },
            Err(error) => error == RecoverError::CountOverflow,
        },
{
    proof {
        lemma_keys_letters(*base, mode);
    }
    let mut rank: u128 = match *cursor {
        PermutationCursor::Local { index } => {
            if index < base.local_permutations.len() {
                let words = copy_words(&base.local_permutations[index]);
                proof {
                    let w = deep(base.words@);
                    let l = deep(base.local_permutations@[index as int]@);
                    assert(drawn_from(l, w));
                    assert forall|k: int| 0 <= k < l.len() implies is_letter_token(#[trigger] l[k]) by {
                        assert(w.contains(l[k]));
                        let j = choose|j: int| 0 <= j < w.len() && w[j] == l[k];
                        assert(is_letter_token(w[j]));
                    }
                }
                return Ok(Some((words, PermutationOrder::Local(index))));
            }
            0
        },
        PermutationCursor::Lexical { rank } => rank,
    };
    let ghost start = rank;
    *cursor = PermutationCursor::Lexical { rank };
    while rank < base.lexical_count
        invariant
            base_plan_valid(*base, mode),
            forall|k: int| 0 <= k < base.keys@.len() ==> is_letter_token(#[trigger] base.keys@[k]@),
            *cursor == (PermutationCursor::Lexical { rank }),
            start <= rank,
            *old(cursor) matches PermutationCursor::Lexical { rank: r } ==> r == start,
            *old(cursor) matches PermutationCursor::Local { index } ==> start == 0 && index
                >= base.local_permutations@.len(),
            forall|r: u128| start <= r < rank ==> #[trigger] local_rank(*base, r),
        decreases base.lexical_count - rank,
    {
        let words = unrank_words(&base.keys, &base.counts, base.total, rank)?;
        if !contains_order(&base.local_permutations, &words) {
            proof {
                let p = choose|p: Seq<usize>|
                    is_arrangement(base.counts@, p) && lex_rank_is(base.counts@, p, rank) && spells(
                        deep(base.keys@),
                        p,
                        deep(words@),
                    );
                assert(spells(deep(base.keys@), p, deep(words@)));
                assert(order_of_base(*base, mode, deep(words@)));
                assert forall|k: int| 0 <= k < deep(words@).len() implies is_letter_token(#[trigger] deep(words@)[k]) by {
                    assert(deep(base.keys@)[p[k] as int] == base.keys@[p[k] as int]@);
                }
            }
            return Ok(Some((words, PermutationOrder::Lexical(rank))));
        }
        proof {
            assert(local_rank(*base, rank));
        }
        rank = rank + 1;
        *cursor = PermutationCursor::Lexical { rank };
    }
    Ok(None)
}

/// First lexical rank a permutation cursor stands at or before
pub open spec fn first_lexical_rank(cursor: PermutationCursor) -> u128 {
    match cursor {
        PermutationCursor::Local { .. } => 0,
        PermutationCursor::Lexical { rank } => rank,
    }
}

/// The arrangement of this lexical rank spells one of the base's local orders
pub open spec fn local_rank(base: BasePlan, rank: u128) -> bool {
    exists|order: Seq<Seq<u8>>, p: Seq<usize>|
        is_arrangement(base.counts@, p) && crate::combinatorics::lex_rank(base.counts@, p) == rank && #[trigger] spells(
            deep(base.keys@),
            p,
            order,
        ) && deep_lists(base.local_permutations@).contains(order)
}

spec fn lex_rank_is(counts: Seq<usize>, p: Seq<usize>, rank: u128) -> bool {
    crate::combinatorics::lex_rank(counts, p) == rank
}

fn contains_order(orders: &Vec<Vec<Vec<u8>>>, words: &Vec<Vec<u8>>) -> (found: bool)
    ensures
        found == deep_lists(orders@).contains(deep(words@)),
{
    let mut i: usize = 0;
    while i < orders.len()
        invariant
            i <= orders@.len(),
            forall|j: int| 0 <= j < i ==> deep_lists(orders@)[j] != deep(words@),
        decreases orders@.len() - i,
    {
        if crate::bytes::words_eq(&orders[i], words) {
            proof {
                assert(deep_lists(orders@)[i as int] == deep(words@));
            }
            return true;
        }
        i = i + 1;
    }
    false
}

/// Move to the next order of a base
pub fn advance_permutation(cursor: &mut PermutationCursor, local_count: usize)
    requires
        *old(cursor) matches PermutationCursor::Lexical { rank } ==> rank < u128::MAX,
    ensures
        *final(cursor) == match *old(cursor) {
            PermutationCursor::Local { index } => if index + 1 < local_count {
                PermutationCursor::Local { index: (index + 1) as usize }
            } else {
                PermutationCursor::Lexical { rank: 0 }
            },
            PermutationCursor::Lexical { rank } => PermutationCursor::Lexical { rank: (rank + 1) as u128 },
        },
{
    match *cursor {
        PermutationCursor::Local { index } => {
            if index < local_count && index + 1 < local_count {
                *cursor = PermutationCursor::Local { index: index + 1 };
            } else {
                *cursor = PermutationCursor::Lexical { rank: 0 };
            }
        },
        PermutationCursor::Lexical { rank } => {
            *cursor = PermutationCursor::Lexical { rank: rank + 1 };
        },
    }
}

/// Move the cursor to the start of the next phase, unless it would pass
/// `through` or no phase follows
pub fn advance_phase(cursor: &mut CandidateCursor, through: SearchPhase, max_replacements: usize) -> (moved: bool)
    ensures
        moved == (crate::phase::spec_next_phase(old(cursor).phase, max_replacements) matches Some(next) && !phase_lt(
            through,
            next,
        )),
        moved ==> *final(cursor) == (CandidateCursor {
            phase: crate::phase::spec_next_phase(old(cursor).phase, max_replacements)->Some_0,
            base_index: 0,
            permutation: PermutationCursor::Local { index: 0 },
            case_rank: 0,
            spacing_rank: 0,
            completed: old(cursor).completed,
        }),
        !moved ==> *final(cursor) == *old(cursor),
{
    let next = match cursor.phase.next(max_replacements) {
        Some(next) => next,
        None => return false,
    };
    if next.is_after(through) {
        return false;
    }
    cursor.phase = next;
    cursor.base_index = 0;
    cursor.permutation = PermutationCursor::Local { index: 0 };
    cursor.case_rank = 0;
    cursor.spacing_rank = 0;
    true
}


/// First alternative of every slot
pub open spec fn primary_words(slots: Seq<TokenSlot>) -> Seq<String> {
    slots.map_values(|slot: TokenSlot| slot.alternatives_view()[0])
}

/// One suggestion per word: the word and its `count` nearest BIP39 words,
/// ranked by distance and then by word-list order
pub open spec fn suggests_nearest(suggestions: Seq<NeighborSuggestion>, words: Seq<String>, count: nat) -> bool {
    &&& suggestions.len() == words.len()
    &&& forall|i: int|
        0 <= i < words.len() ==> (#[trigger] suggestions[i]).written@ == words[i]@ && exists|ranked: Seq<int>|
            crate::neighbors::nearest_ranking(words[i]@, count, ranked) && crate::neighbors::neighbors_match(
                words[i]@,
                suggestions[i].neighbors@,
                ranked,
            )
}

/// A locator entry records the multiset of these words
pub open spec fn locates_words(entry: BaseLocator, words: Seq<Seq<u8>>) -> bool {
    deep(entry.keys@) == crate::multiset::distinct_words(words) && entry.counts@ == crate::multiset::word_counts(words)
}

/// The permutation place of an order of a base: its first local index, or,
/// when no local order spells it, the lexical rank of its arrangement
pub open spec fn permutation_named(base: BasePlan, words: Seq<Seq<u8>>, permutation: PermutationOrder) -> bool {
    match permutation {
        PermutationOrder::Local(i) => i < base.local_permutations@.len() && deep(base.local_permutations@[i as int]@)
            == words && forall|j: int| 0 <= j < i ==> deep(#[trigger] base.local_permutations@[j]@) != words,
        PermutationOrder::Lexical(r) => (forall|j: int|
            0 <= j < base.local_permutations@.len() ==> deep(#[trigger] base.local_permutations@[j]@) != words)
            && exists|p: Seq<usize>|
            #[trigger] spells(deep(base.keys@), p, words) && crate::combinatorics::valid_prefix(base.counts@, p) && r
                == crate::combinatorics::lex_rank(base.counts@, p),
    }
}

/// The spacing rank of a mask among the spacing patterns of the settings
pub open spec fn spacing_named(word_count: nat, settings: RecoverySettings, mask: u128, rank: u128) -> bool {
    &&& crate::spacing::patterns_exist(word_count, settings.spacing)
    &&& exists|patterns: Seq<u128>|
        #[trigger] spacing_patterns_spec(word_count, settings.spacing, settings.concatenated_already_tried, patterns)
            && rank < patterns.len() && patterns[rank as int] == mask && forall|j: int|
            0 <= j < rank ==> patterns[j] != mask
}

/// An order of a base has one permutation place
pub proof fn lemma_permutation_named_unique(
    base: BasePlan,
    mode: OrderMode,
    words: Seq<Seq<u8>>,
    a: PermutationOrder,
    b: PermutationOrder,
)
    requires
        base_plan_valid(base, mode),
        permutation_named(base, words, a),
        permutation_named(base, words, b),
    ensures
        a == b,
{
    match (a, b) {
        (PermutationOrder::Local(i), PermutationOrder::Local(j)) => {
            if i < j {
                assert(deep(base.local_permutations@[i as int]@) != words);
            }
            if j < i {
                assert(deep(base.local_permutations@[j as int]@) != words);
            }
        },
        (PermutationOrder::Local(i), PermutationOrder::Lexical(_)) => {
            assert(deep(base.local_permutations@[i as int]@) != words);
        },
        (PermutationOrder::Lexical(_), PermutationOrder::Local(j)) => {
            assert(deep(base.local_permutations@[j as int]@) != words);
        },
        (PermutationOrder::Lexical(r), PermutationOrder::Lexical(t)) => {
            let keys = deep(base.keys@);
            let p = choose|p: Seq<usize>|
                #[trigger] spells(keys, p, words) && crate::combinatorics::valid_prefix(base.counts@, p) && r
                    == crate::combinatorics::lex_rank(base.counts@, p);
            let q = choose|q: Seq<usize>|
                #[trigger] spells(keys, q, words) && crate::combinatorics::valid_prefix(base.counts@, q) && t
                    == crate::combinatorics::lex_rank(base.counts@, q);
            crate::multiset::lemma_distinct_words_distinct(deep(base.words@));
            assert(p =~= q) by {
                assert forall|k: int| 0 <= k < p.len() implies p[k] == q[k] by {
                    assert(keys[p[k] as int] == words[k]);
                    assert(keys[q[k] as int] == words[k]);
                    if p[k] < q[k] {
                        assert(keys[p[k] as int] != keys[q[k] as int]);
                    }
                    if q[k] < p[k] {
                        assert(keys[q[k] as int] != keys[p[k] as int]);
                    }
                }
            }
        },
    }
}

/// Derivation keys are ordered totally and transitively
pub proof fn lemma_key_order(a: DerivationKey, b: DerivationKey, c: DerivationKey)
    ensures
        !key_lt(a, a),
        key_lt(a, b) && key_lt(b, c) ==> key_lt(a, c),
        a != b ==> key_lt(a, b) || key_lt(b, a),
        key_lt(a, b) ==> !key_lt(b, a),
{
}

/// Two splits of a passphrase into the same words with the same spaces cut
/// it into the same pieces
proof fn lemma_pieces_equal(
    words: Seq<Seq<u8>>,
    a: crate::trie::ParsedSegmentation,
    pa: Seq<Seq<u8>>,
    b: crate::trie::ParsedSegmentation,
    pb: Seq<Seq<u8>>,
    input: Seq<u8>,
)
    requires
        crate::trie::segmentation_shape(a),
        crate::trie::segmentation_shape(b),
        crate::trie::reads_with(words, a, pa, input),
        crate::trie::reads_with(words, b, pb, input),
        deep(a.words@) == deep(b.words@),
        a.spacing_mask == b.spacing_mask,
    ensures
        pa == pb,
{
    assert(deep(a.words@).len() == a.words@.len());
    assert(deep(b.words@).len() == b.words@.len());
    assert(pa.len() == pb.len());
    assert forall|k: int| 0 <= k < pa.len() implies (#[trigger] pa[k]).len() == pb[k].len() by {
        let w = a.words@[k]@;
        assert(deep(a.words@)[k] == w);
        assert(deep(b.words@)[k] == b.words@[k]@);
        assert(is_letter_token(w));
        assert(crate::trie::spells(w, a.variants@[k], pa[k]));
        assert(crate::trie::spells(w, b.variants@[k], pb[k]));
        lemma_transformed_letters(w, CaseVariant::Lower);
        lemma_transformed_letters(w, CaseVariant::Title);
        lemma_transformed_letters(w, CaseVariant::Upper);
        if crate::trie::has_variant(a.variants@[k], CaseVariant::Lower) {
            assert(transformed(w, CaseVariant::Lower) == pa[k]);
        } else if crate::trie::has_variant(a.variants@[k], CaseVariant::Title) {
            assert(transformed(w, CaseVariant::Title) == pa[k]);
        } else {
            assert(transformed(w, CaseVariant::Upper) == pa[k]);
        }
        if crate::trie::has_variant(b.variants@[k], CaseVariant::Lower) {
            assert(transformed(w, CaseVariant::Lower) == pb[k]);
        } else if crate::trie::has_variant(b.variants@[k], CaseVariant::Title) {
            assert(transformed(w, CaseVariant::Title) == pb[k]);
        } else {
            assert(transformed(w, CaseVariant::Upper) == pb[k]);
        }
    }
    crate::spacing::lemma_spaced_injective(pa, pb, a.spacing_mask);
}

/// The case forms a split of a derivation reads its tokens in: uniform Title,
/// uniform UPPER, or each token's preferred form
pub open spec fn named_forms(variants: Seq<u8>) -> Seq<CaseVariant> {
    if forall|j: int| 0 <= j < variants.len() ==> #[trigger] (variants[j] & 2u8) != 0 {
        Seq::new(variants.len(), |j: int| CaseVariant::Title)
    } else if forall|j: int| 0 <= j < variants.len() ==> #[trigger] (variants[j] & 4u8) != 0 {
        Seq::new(variants.len(), |j: int| CaseVariant::Upper)
    } else {
        crate::casing::preferred_pattern(variants)
    }
}

/// Another split of the same tokens whose flags hold the named forms, and
/// hold lowercase only where lowercase spells the piece, allows a case rank
/// no later than the derivation's
proof fn lemma_least_case_rank_le(
    words: Seq<Seq<u8>>,
    named: Seq<u8>,
    other: Seq<u8>,
    pieces: Seq<Seq<u8>>,
    rank: u128,
)
    requires
        words.len() == named.len(),
        other.len() == named.len(),
        pieces.len() == named.len(),
        named.len() <= 100,
        forall|k: int| 0 <= k < named.len() ==> crate::trie::spells(#[trigger] words[k], other[k], pieces[k]),
        forall|k: int| 0 <= k < named.len() && words[k] == pieces[k] ==> #[trigger] (named[k] & 1u8) != 0,
        forall|k: int| 0 <= k < named.len() ==> crate::trie::has_variant(#[trigger] other[k], named_forms(named)[k]),
        case_rank_of(named, rank),
    ensures
        least_case_rank(other) matches Some(r) && r <= rank,
{
    let n = named.len();
    let all_t = forall|j: int| 0 <= j < n ==> #[trigger] (named[j] & 2u8) != 0;
    let all_u = forall|j: int| 0 <= j < n ==> #[trigger] (named[j] & 4u8) != 0;
    let o_t = forall|j: int| 0 <= j < n ==> #[trigger] (other[j] & 2u8) != 0;
    let o_u = forall|j: int| 0 <= j < n ==> #[trigger] (other[j] & 4u8) != 0;
    if all_t {
        assert forall|j: int| 0 <= j < n implies #[trigger] (other[j] & 2u8) != 0 by {
            assert(named_forms(named)[j] == CaseVariant::Title);
            assert(crate::trie::has_variant(other[j], named_forms(named)[j]));
        }
    } else if all_u {
        assert forall|j: int| 0 <= j < n implies #[trigger] (other[j] & 4u8) != 0 by {
            assert(named_forms(named)[j] == CaseVariant::Upper);
            assert(crate::trie::has_variant(other[j], named_forms(named)[j]));
        }
    } else {
        let p = crate::casing::preferred_pattern(named);
        assert(!crate::casing::all_variant(p, CaseVariant::Title)) by {
            if crate::casing::all_variant(p, CaseVariant::Title) {
                assert forall|j: int| 0 <= j < n implies #[trigger] (named[j] & 2u8) != 0 by {
                    assert(p[j] == CaseVariant::Title);
                }
            }
        }
        assert(!crate::casing::all_variant(p, CaseVariant::Upper)) by {
            if crate::casing::all_variant(p, CaseVariant::Upper) {
                assert forall|j: int| 0 <= j < n implies #[trigger] (named[j] & 4u8) != 0 by {
                    assert(p[j] == CaseVariant::Upper);
                }
            }
        }
        crate::casing::lemma_case_rank_at_least_two(p);
        if !o_t && !o_u {
        let q = crate::casing::preferred_pattern(other);
        assert(named_forms(named) == p);
        assert forall|j: int| 0 <= j < n implies #[trigger] crate::casing::preferred_variant(other[j]) is Some && (q[j]
            == CaseVariant::Lower <==> p[j] == CaseVariant::Lower) && (q[j] == CaseVariant::Upper ==> p[j]
            == CaseVariant::Upper) by {
            assert(crate::casing::preferred_variant(named[j]) is Some);
            assert(crate::trie::has_variant(other[j], p[j]));
            if p[j] != CaseVariant::Lower {
                assert((named[j] & 1u8) == 0);
                assert(words[j] != pieces[j]);
                assert(crate::trie::spells(words[j], other[j], pieces[j]));
                if (other[j] & 1u8) != 0 {
                    assert(crate::trie::has_variant(other[j], CaseVariant::Lower));
                    assert(transformed(words[j], CaseVariant::Lower) == pieces[j]);
                }
            }
        }
        assert(!crate::casing::all_variant(q, CaseVariant::Title)) by {
            if crate::casing::all_variant(q, CaseVariant::Title) {
                assert forall|j: int| 0 <= j < n implies #[trigger] (other[j] & 2u8) != 0 by {
                    assert(q[j] == CaseVariant::Title);
                }
            }
        }
        assert(!crate::casing::all_variant(q, CaseVariant::Upper)) by {
            if crate::casing::all_variant(q, CaseVariant::Upper) {
                assert forall|j: int| 0 <= j < n implies #[trigger] (other[j] & 4u8) != 0 by {
                    assert(q[j] == CaseVariant::Upper);
                }
            }
        }
        crate::casing::lemma_case_rank_monotone(q, p);
        let raised = crate::casing::raised_positions(p);
        assert(raised.len() > 0);
        crate::casing::lemma_raised_nonlower(p);
        let j = raised[0];
        assert(p[j] != CaseVariant::Lower);
        crate::casing::lemma_raised_exists(q, j);
        }
    }
}

/// Keys at least as late as a later-or-equal key are at least as late
pub proof fn lemma_key_le_trans(a: DerivationKey, b: DerivationKey, c: DerivationKey)
    requires
        !key_lt(a, b),
        !key_lt(b, c),
    ensures
        !key_lt(a, c),
{
    lemma_key_order(a, c, b);
    lemma_key_order(c, b, a);
    lemma_key_order(b, c, a);
    lemma_key_order(c, a, b);
}

/// The earlier of two keys is no later than either
pub proof fn lemma_key_min(key: DerivationKey, known: DerivationKey)
    ensures
        !key_lt(key, if key_lt(key, known) { key } else { known }),
        !key_lt(known, if key_lt(key, known) { key } else { known }),
{
    lemma_key_order(key, known, key);
    lemma_key_order(known, key, known);
}

/// The derivation key of the position just before a cursor: the cursor's
/// phase, base, order place and case rank, and the spacing rank before its own
pub open spec fn emitted_key(cursor: CandidateCursor, max_replacements: usize) -> DerivationKey {
    DerivationKey {
        phase_index: crate::phase::spec_phase_index(cursor.phase, max_replacements) as usize,
        base_index: cursor.base_index,
        permutation: match cursor.permutation {
            PermutationCursor::Local { index } => PermutationOrder::Local(index),
            PermutationCursor::Lexical { rank } => PermutationOrder::Lexical(rank),
        },
        case_rank: cursor.case_rank,
        spacing_rank: (cursor.spacing_rank - 1) as u128,
    }
}

/// A mask has one spacing rank
pub proof fn lemma_spacing_named_unique(word_count: nat, settings: RecoverySettings, mask: u128, a: u128, b: u128)
    requires
        spacing_named(word_count, settings, mask, a),
        spacing_named(word_count, settings, mask, b),
    ensures
        a == b,
{
    let pa = choose|patterns: Seq<u128>|
        spacing_patterns_spec(word_count, settings.spacing, settings.concatenated_already_tried, patterns) && a
            < patterns.len() && patterns[a as int] == mask && forall|j: int| 0 <= j < a ==> patterns[j] != mask;
    let pb = choose|patterns: Seq<u128>|
        spacing_patterns_spec(word_count, settings.spacing, settings.concatenated_already_tried, patterns) && b
            < patterns.len() && patterns[b as int] == mask && forall|j: int| 0 <= j < b ==> patterns[j] != mask;
    crate::spacing::lemma_spacing_patterns_unique(
        word_count,
        settings.spacing,
        settings.concatenated_already_tried,
        pa,
        pb,
    );
    if a < b {
        assert(pb[a as int] != mask);
    }
    if b < a {
        assert(pa[b as int] != mask);
    }
}

/// A named mask is one the spacing mode allows
pub proof fn lemma_spacing_named_allowed(word_count: nat, settings: RecoverySettings, mask: u128, rank: u128)
    requires
        spacing_named(word_count, settings, mask, rank),
    ensures
        crate::spacing::patterns_exist(word_count, settings.spacing),
        crate::spacing::mask_allowed(word_count, settings.spacing, settings.concatenated_already_tried, mask),
{
    let patterns = choose|patterns: Seq<u128>|
        spacing_patterns_spec(word_count, settings.spacing, settings.concatenated_already_tried, patterns) && rank
            < patterns.len() && patterns[rank as int] == mask && forall|j: int| 0 <= j < rank ==> patterns[j] != mask;
    assert(patterns.contains(mask));
    crate::spacing::lemma_spacing_patterns_allowed(
        word_count,
        settings.spacing,
        settings.concatenated_already_tried,
        patterns,
        mask,
    );
}

/// The split's flags name lowercase for every token whose lowercase form
/// spells its piece
pub open spec fn lower_named(s: crate::trie::ParsedSegmentation, pieces: Seq<Seq<u8>>) -> bool {
    forall|k: int| 0 <= k < pieces.len() && s.words@[k]@ == pieces[k] ==> #[trigger] (s.variants@[k] & 1u8) != 0
}

/// The passphrase that pieces of a split join into
pub open spec fn out_input(s: crate::trie::ParsedSegmentation, pieces: Seq<Seq<u8>>) -> Seq<u8> {
    spaced(pieces, s.spacing_mask)
}

/// A split read in forms among its flags is a reading of its passphrase
proof fn lemma_named_reading(
    words: Seq<Seq<u8>>,
    s: crate::trie::ParsedSegmentation,
    pieces: Seq<Seq<u8>>,
    passphrase: Seq<u8>,
    forms: Seq<CaseVariant>,
)
    requires
        crate::trie::segmentation_shape(s),
        crate::trie::reads_with(words, s, pieces, passphrase),
        forms.len() == s.words@.len(),
        forall|k: int| 0 <= k < s.words@.len() ==> crate::trie::has_variant(#[trigger] s.variants@[k], forms[k]),
    ensures
        crate::trie::reading(words, passphrase, deep(s.words@), forms, s.spacing_mask),
        passphrase == out_input(s, pieces),
{
    let chosen = deep(s.words@);
    let n = s.words@.len();
    let applied = apply_pattern(chosen, forms);
    assert(applied =~= pieces) by {
        assert forall|k: int| 0 <= k < n implies applied[k] == pieces[k] by {
            assert(chosen[k] == s.words@[k]@);
            assert(pieces[k] == pieces[k]);
            assert(crate::trie::spells(s.words@[k]@, s.variants@[k], pieces[k]));
            assert(crate::trie::has_variant(s.variants@[k], forms[k]));
        }
    }
    assert forall|k: int| 0 <= k < chosen.len() implies words.contains(#[trigger] chosen[k]) by {
        assert(chosen[k] == s.words@[k]@);
        assert(pieces[k] == pieces[k]);
    }
}

/// The least case rank, among patterns that are not all lowercase, that
/// tokens with these variant bits allow: uniform Title, then uniform UPPER,
/// then the rank of each token's preferred variant when some token is raised
pub open spec fn least_case_rank(variants: Seq<u8>) -> Option<int> {
    if forall|j: int| 0 <= j < variants.len() ==> #[trigger] (variants[j] & 2u8) != 0 {
        Some(0)
    } else if forall|j: int| 0 <= j < variants.len() ==> #[trigger] (variants[j] & 4u8) != 0 {
        Some(1)
    } else if (forall|j: int|
        0 <= j < variants.len() ==> #[trigger] crate::casing::preferred_variant(variants[j]) is Some)
        && crate::casing::raised_positions(crate::casing::preferred_pattern(variants)).len() > 0 {
        Some(crate::casing::case_rank(crate::casing::preferred_pattern(variants)))
    } else {
        None
    }
}

/// The case rank taken for words that allow these variant bits: uniform
/// title, uniform upper, else the rank of the preferred pattern
pub open spec fn case_rank_of(variants: Seq<u8>, rank: u128) -> bool {
    if forall|j: int| 0 <= j < variants.len() ==> #[trigger] (variants[j] & 2u8) != 0 {
        rank == 0
    } else if forall|j: int| 0 <= j < variants.len() ==> #[trigger] (variants[j] & 4u8) != 0 {
        rank == 1
    } else {
        (forall|j: int| 0 <= j < variants.len() ==> #[trigger] crate::casing::preferred_variant(variants[j]) is Some)
            && rank == crate::casing::case_rank(crate::casing::preferred_pattern(variants))
            && crate::casing::raised_positions(crate::casing::preferred_pattern(variants)).len() > 0
    }
}

/// A phase with this replacement count that does, or does not, vary case
pub open spec fn phase_kind(phase: SearchPhase, replacements: usize, variants: bool) -> bool {
    spec_replacement_count(phase) == replacements && spec_includes_case_variants(phase) == variants
}

/// A locator entry records this multiset of words
pub open spec fn locates(entry: BaseLocator, keys: &Vec<Vec<u8>>, counts: &Vec<usize>) -> bool {
    deep(entry.keys@) == deep(keys@) && entry.counts@ == counts@
}

impl RecoveryPlan {
    /// The first phase of the plan of this kind, at its global index
    spec fn first_kind_at(&self, replacements: usize, variants: bool, phase_index: usize) -> bool {
        exists|p: int|
            0 <= p < self.phases@.len() && phase_kind(#[trigger] self.phases@[p].phase, replacements, variants) && (
            forall|q: int| 0 <= q < p ==> !phase_kind(#[trigger] self.phases@[q].phase, replacements, variants))
                && phase_index == crate::phase::spec_phase_index(self.phases@[p].phase, self.settings.max_replacements)
    }

    /// The derivation key of one split of a passphrase: the first planned base
    /// of its multiset, the place of its order in that base, the rank of its
    /// spacing, and either the all-lowercase phase or the case phase with the
    /// case rank its variants allow
    spec fn entry_key(&self, s: crate::trie::ParsedSegmentation, key: DerivationKey) -> bool {
        exists|i: int| #[trigger] self.entry_at(s, key, i)
    }

    /// Locator entry `i` is the first to record the split's words, and the key
    /// takes its base, order place, spacing rank and phase from the split
    spec fn placed_at(&self, s: crate::trie::ParsedSegmentation, key: DerivationKey, i: int) -> bool {
        let words = deep(s.words@);
        &&& 0 <= i < self.base_lookup@.len()
        &&& locates_words(self.base_lookup@[i], words)
        &&& forall|j: int| 0 <= j < i ==> !locates_words(#[trigger] self.base_lookup@[j], words)
        &&& self.first_with_replacements(self.base_lookup@[i].replacements) matches Some(p)
        &&& self.base_lookup@[i].base_index < self.phases@[p].bases@.len()
        &&& key.base_index == self.base_lookup@[i].base_index
        &&& permutation_named(self.phases@[p].bases@[self.base_lookup@[i].base_index as int], words, key.permutation)
        &&& spacing_named(words.len(), self.settings, s.spacing_mask, key.spacing_rank)
    }

    /// The key is the all-lowercase one of its place
    spec fn lower_key_at(&self, s: crate::trie::ParsedSegmentation, key: DerivationKey, i: int) -> bool {
        &&& key.case_rank == 0
        &&& forall|j: int| 0 <= j < s.variants@.len() ==> #[trigger] (s.variants@[j] & 1u8) != 0
        &&& self.first_kind_at(self.base_lookup@[i].replacements, false, key.phase_index)
    }

    /// The key is the case-phase one of its place, with the case rank the
    /// split's flags name
    spec fn case_key_at(&self, s: crate::trie::ParsedSegmentation, key: DerivationKey, i: int) -> bool {
        &&& case_rank_of(s.variants@, key.case_rank)
        &&& self.first_kind_at(self.base_lookup@[i].replacements, true, key.phase_index)
    }

    /// The derivation key of one split of a passphrase, at locator entry `i`
    spec fn entry_at(&self, s: crate::trie::ParsedSegmentation, key: DerivationKey, i: int) -> bool {
        &&& self.placed_at(s, key, i)
        &&& (self.lower_key_at(s, key, i) || self.case_key_at(s, key, i))
    }

    /// A split's words, spaces and flags give, at locator entry `i`, a
    /// derivation key no later than `key`: the key's base, order place, spacing
    /// rank and phase are the split's, and its case rank is at least the least
    /// one the flags allow
    spec fn bound_at(&self, s: crate::trie::ParsedSegmentation, key: DerivationKey, i: int) -> bool {
        &&& self.placed_at(s, key, i)
        &&& {
            ||| self.lower_key_at(s, key, i)
            ||| self.first_kind_at(self.base_lookup@[i].replacements, true, key.phase_index) && (least_case_rank(
                s.variants@,
            ) matches Some(r) && r <= key.case_rank)
        }
    }

    /// The key is the derivation key of some split of the passphrase into the
    /// plan's words
    spec fn derives(&self, passphrase: Seq<u8>, key: DerivationKey) -> bool {
        exists|s: crate::trie::ParsedSegmentation|
            crate::trie::segmentation_shape(s) && crate::trie::reads(self.trie.words_view(), s, passphrase) && #[trigger] self.entry_key(
                s,
                key,
            )
    }

    /// The key is the derivation key of a split of the passphrase into the
    /// plan's words whose flags name lowercase for every token whose lowercase
    /// form spells its piece
    spec fn exact_derives(&self, passphrase: Seq<u8>, key: DerivationKey) -> bool {
        exists|s: crate::trie::ParsedSegmentation, pieces: Seq<Seq<u8>>|
            #![trigger self.entry_key(s, key), crate::trie::reads_with(self.trie.words_view(), s, pieces, passphrase)]
            crate::trie::segmentation_shape(s) && crate::trie::reads_with(self.trie.words_view(), s, pieces, passphrase)
                && lower_named(s, pieces) && self.entry_key(s, key)
    }

    /// A split's words, spaces and flags give a derivation key no later than `key`
    spec fn bounds(&self, s: crate::trie::ParsedSegmentation, key: DerivationKey) -> bool {
        exists|i: int| #[trigger] self.bound_at(s, key, i)
    }

    /// A derivation of a passphrase is matched by a split the parser returns:
    /// the same words and spaces, with flags that allow a key no later
    proof fn lemma_derivation_covered(
        &self,
        passphrase: Seq<u8>,
        output: Seq<crate::trie::ParsedSegmentation>,
        key: DerivationKey,
    )
        requires
            forall|i: int|
                0 <= i < output.len() ==> crate::trie::segmentation_shape(#[trigger] output[i])
                    && crate::trie::reads(self.trie.words_view(), output[i], passphrase),
            forall|chosen: Seq<Seq<u8>>, forms: Seq<CaseVariant>, mask: u128|
                #[trigger] crate::trie::reading(self.trie.words_view(), passphrase, chosen, forms, mask)
                    ==> crate::trie::covers(output, chosen, forms, mask),
            self.exact_derives(passphrase, key),
        ensures
            exists|i: int| 0 <= i < output.len() && #[trigger] self.bounds(output[i], key),
    {
        let ww = self.trie.words_view();
        let (s, pieces) = choose|s: crate::trie::ParsedSegmentation, pieces: Seq<Seq<u8>>|
            crate::trie::segmentation_shape(s) && crate::trie::reads_with(ww, s, pieces, passphrase) && lower_named(
                s,
                pieces,
            ) && self.entry_key(s, key);
        let li = choose|i: int| self.entry_at(s, key, i);
        let n = s.words@.len();
        let case_t = self.case_key_at(s, key, li);
        let forms = if case_t {
            named_forms(s.variants@)
        } else {
            Seq::new(n, |j: int| CaseVariant::Lower)
        };
        self.lemma_key_forms(s, key, li, case_t, forms);
        lemma_named_reading(ww, s, pieces, passphrase, forms);
        let words = deep(s.words@);
        assert(crate::trie::covers(output, words, forms, s.spacing_mask));
        let oi = choose|i: int| 0 <= i < output.len() && #[trigger] crate::trie::lists(output[i], words, forms, s.spacing_mask);
        let out = output[oi];
        assert(crate::trie::segmentation_shape(out));
        assert(crate::trie::reads(ww, out, passphrase));
        let pieces2 = choose|segments: Seq<Seq<u8>>| #[trigger] crate::trie::reads_with(ww, out, segments, passphrase);
        lemma_pieces_equal(ww, s, pieces, out, pieces2, passphrase);
        if case_t {
            self.lemma_split_case(s, pieces, out, key, forms);
        } else {
            assert forall|j: int| 0 <= j < out.variants@.len() implies #[trigger] (out.variants@[j] & 1u8) != 0 by {
                assert(crate::trie::has_variant(out.variants@[j], forms[j]));
            }
        }
        self.lemma_bound_from_entry(s, out, key, li, case_t);
        assert(self.bounds(output[oi], key));
    }

    /// The named forms of a derivation's split are among its flags
    proof fn lemma_key_forms(
        &self,
        s: crate::trie::ParsedSegmentation,
        key: DerivationKey,
        li: int,
        case_t: bool,
        forms: Seq<CaseVariant>,
    )
        requires
            self.entry_at(s, key, li),
            s.words@.len() == s.variants@.len(),
            case_t == self.case_key_at(s, key, li),
            forms == if case_t {
                named_forms(s.variants@)
            } else {
                Seq::new(s.words@.len(), |j: int| CaseVariant::Lower)
            },
        ensures
            forms.len() == s.words@.len(),
            forall|k: int| 0 <= k < s.words@.len() ==> crate::trie::has_variant(#[trigger] s.variants@[k], forms[k]),
    {
        let n = s.words@.len();
        assert forall|k: int| 0 <= k < n implies crate::trie::has_variant(#[trigger] s.variants@[k], forms[k]) by {
            if !case_t {
                assert(self.lower_key_at(s, key, li));
                assert((s.variants@[k] & 1u8) != 0);
            } else {
                if forall|j: int| 0 <= j < s.variants@.len() ==> #[trigger] (s.variants@[j] & 2u8) != 0 {
                    assert((s.variants@[k] & 2u8) != 0);
                } else if forall|j: int| 0 <= j < s.variants@.len() ==> #[trigger] (s.variants@[j] & 4u8) != 0 {
                    assert((s.variants@[k] & 4u8) != 0);
                } else {
                    assert(crate::casing::preferred_variant(s.variants@[k]) is Some);
                }
            }
        }
    }

    /// A split with the same words and spaces as a derivation's, whose flags
    /// allow the derivation's case, bounds its key at the same locator entry
    proof fn lemma_bound_from_entry(
        &self,
        s: crate::trie::ParsedSegmentation,
        out: crate::trie::ParsedSegmentation,
        key: DerivationKey,
        li: int,
        case_t: bool,
    )
        requires
            self.entry_at(s, key, li),
            deep(out.words@) == deep(s.words@),
            out.spacing_mask == s.spacing_mask,
            case_t == self.case_key_at(s, key, li),
            case_t ==> (least_case_rank(out.variants@) matches Some(r) && r <= key.case_rank),
            !case_t ==> forall|j: int| 0 <= j < out.variants@.len() ==> #[trigger] (out.variants@[j] & 1u8) != 0,
        ensures
            self.bound_at(out, key, li),
    {
        assert(self.placed_at(out, key, li));
        if !case_t {
            assert(self.lower_key_at(s, key, li));
            assert(self.lower_key_at(out, key, li));
        }
    }

    /// The case part of a bound
    proof fn lemma_split_case(
        &self,
        s: crate::trie::ParsedSegmentation,
        pieces: Seq<Seq<u8>>,
        out: crate::trie::ParsedSegmentation,
        key: DerivationKey,
        forms: Seq<CaseVariant>,
    )
        requires
            crate::trie::segmentation_shape(s),
            crate::trie::segmentation_shape(out),
            crate::trie::reads_with(self.trie.words_view(), out, pieces, out_input(s, pieces)),
            crate::trie::lists(out, deep(s.words@), forms, s.spacing_mask),
            lower_named(s, pieces),
            forms == named_forms(s.variants@),
            case_rank_of(s.variants@, key.case_rank),
            pieces.len() == s.words@.len(),
        ensures
            least_case_rank(out.variants@) matches Some(r) && r <= key.case_rank,
    {
        let words = deep(s.words@);
        let n = s.words@.len();
        assert forall|k: int| 0 <= k < n implies crate::trie::spells(#[trigger] words[k], out.variants@[k], pieces[k]) by {
            assert(deep(out.words@)[k] == out.words@[k]@);
            assert(pieces[k] == pieces[k]);
        }
        assert forall|k: int| 0 <= k < n && words[k] == pieces[k] implies #[trigger] (s.variants@[k] & 1u8) != 0 by {
            assert(words[k] == s.words@[k]@);
        }
        assert forall|k: int| 0 <= k < n implies crate::trie::has_variant(
            #[trigger] out.variants@[k],
            named_forms(s.variants@)[k],
        ) by {
            assert(crate::trie::has_variant(out.variants@[k], forms[k]));
        }
        lemma_least_case_rank_le(words, s.variants@, out.variants@, pieces, key.case_rank);
    }

    /// A bound of a split at the first locator entry of its words takes the
    /// base, order place and spacing rank that the split has there
    #[verifier::rlimit(100)]
    proof fn lemma_bound_place(
        &self,
        seg: crate::trie::ParsedSegmentation,
        k: DerivationKey,
        li: int,
        permutation: PermutationOrder,
        spacing: u128,
    )
        requires
            self.bounds(seg, k),
            base_plan_valid(
                self.phases@[self.first_with_replacements(self.base_lookup@[li].replacements)->Some_0].bases@[self.base_lookup@[li].base_index as int],
                self.settings.order,
            ),
            0 <= li < self.base_lookup@.len(),
            locates_words(self.base_lookup@[li], deep(seg.words@)),
            forall|j: int| 0 <= j < li ==> !locates_words(#[trigger] self.base_lookup@[j], deep(seg.words@)),
            self.first_with_replacements(self.base_lookup@[li].replacements) is Some,
            self.base_lookup@[li].base_index < self.phases@[self.first_with_replacements(
                self.base_lookup@[li].replacements,
            )->Some_0].bases@.len(),
            permutation_named(
                self.phases@[self.first_with_replacements(self.base_lookup@[li].replacements)->Some_0].bases@[self.base_lookup@[li].base_index as int],
                deep(seg.words@),
                permutation,
            ),
            spacing_named(deep(seg.words@).len(), self.settings, seg.spacing_mask, spacing),
        ensures
            self.bound_at(seg, k, li),
            k.base_index == self.base_lookup@[li].base_index,
            k.permutation == permutation,
            k.spacing_rank == spacing,
    {
        let i = choose|i: int| self.bound_at(seg, k, i);
        let words = deep(seg.words@);
        if i < li {
            assert(!locates_words(self.base_lookup@[i], words));
        }
        if li < i {
            assert(!locates_words(self.base_lookup@[li], words));
        }
        assert(i == li);
        let p = self.first_with_replacements(self.base_lookup@[li].replacements)->Some_0;
        let base = self.phases@[p].bases@[self.base_lookup@[li].base_index as int];
        lemma_permutation_named_unique(base, self.settings.order, words, k.permutation, permutation);
        lemma_spacing_named_unique(words.len(), self.settings, seg.spacing_mask, k.spacing_rank, spacing);
    }

    /// The phase `phase_for` finds is the first of its kind, at the index a
    /// key of that kind names
    proof fn lemma_first_kind_index(&self, replacements: usize, variants: bool, index: usize, phase: SearchPhase)
        requires
            self.first_kind_at(replacements, variants, index),
            exists|p: int|
                0 <= p < self.phases@.len() && #[trigger] self.phases@[p].phase == phase && (forall|q: int|
                    0 <= q < p ==> !phase_kind(#[trigger] self.phases@[q].phase, replacements, variants)),
            phase_kind(phase, replacements, variants),
        ensures
            index == crate::phase::spec_phase_index(phase, self.settings.max_replacements),
    {
        let p = choose|p: int|
            0 <= p < self.phases@.len() && #[trigger] self.phases@[p].phase == phase && (forall|q: int|
                0 <= q < p ==> !phase_kind(#[trigger] self.phases@[q].phase, replacements, variants));
        let p2 = choose|p: int|
            0 <= p < self.phases@.len() && phase_kind(#[trigger] self.phases@[p].phase, replacements, variants) && (
            forall|q: int| 0 <= q < p ==> !phase_kind(#[trigger] self.phases@[q].phase, replacements, variants))
                && index == crate::phase::spec_phase_index(self.phases@[p].phase, self.settings.max_replacements);
        if p < p2 {
            assert(!phase_kind(self.phases@[p].phase, replacements, variants));
        }
        if p2 < p {
            assert(!phase_kind(self.phases@[p2].phase, replacements, variants));
        }
    }

    /// First phase of the plan with this replacement count
    spec fn first_with_replacements(&self, replacements: usize) -> Option<int> {
        if exists|p: int|
            0 <= p < self.phases@.len() && spec_replacement_count(#[trigger] self.phases@[p].phase) == replacements {
            Some(
                choose|p: int|
                    0 <= p < self.phases@.len() && spec_replacement_count(#[trigger] self.phases@[p].phase)
                        == replacements && forall|q: int|
                        0 <= q < p ==> spec_replacement_count(#[trigger] self.phases@[q].phase) != replacements,
            )
        } else {
            None
        }
    }

    /// Immutable settings of the plan
    pub closed spec fn settings_view(&self) -> RecoverySettings {
        self.settings
    }

    /// Phases of the plan in execution order, with their exact counts
    pub closed spec fn summaries_view(&self) -> Seq<PhaseSummary> {
        self.phases@.map_values(|p: PhasePlan| PhaseSummary { phase: p.phase, count: p.count })
    }

    /// Internal consistency of a compiled plan
    pub closed spec fn valid(&self) -> bool {
        &&& self.settings.max_replacements <= 100
        &&& phases_valid(self.phases@, self.settings)
        &&& self.trie.well_formed()
        &&& self.trie.complete()
        &&& forall|i: int|
            0 <= i < self.base_lookup@.len() ==> (#[trigger] self.base_lookup@[i]).keys@.len()
                == self.base_lookup@[i].counts@.len()
    }

    /// Some base of the phase yields these words and passphrase bytes
    pub closed spec fn produces(&self, phase: SearchPhase, words: Seq<Seq<u8>>, passphrase: Seq<u8>) -> bool {
        exists|p: int, b: int|
            0 <= p < self.phases@.len() && self.phases@[p].phase == phase && 0 <= b < self.phases@[p].bases@.len()
                && #[trigger] base_yields(self.phases@[p].bases@[b], self.settings, phase, words, passphrase)
    }

    /// Whether candidates are filtered to the earliest derivation of their bytes
    pub closed spec fn canonical_check_view(&self) -> bool {
        self.canonical_check_required
    }

    /// Some base of the cursor's phase lies at or after the cursor: the first
    /// phase of the plan that is the cursor's phase has a base at its index
    pub closed spec fn bases_remain(&self, cursor: CandidateCursor) -> bool {
        exists|p: int|
            0 <= p < self.phases@.len() && #[trigger] self.phases@[p].phase == cursor.phase && (forall|q: int|
                0 <= q < p ==> self.phases@[q].phase != cursor.phase) && cursor.base_index < self.phases@[p].bases@.len()
    }

    /// Nothing through phase `through` remains at or after the cursor: it is
    /// past `through`, or no base of its phase is left and no later phase up
    /// to `through` follows
    pub closed spec fn finished(&self, cursor: CandidateCursor, through: SearchPhase) -> bool {
        ||| phase_lt(through, cursor.phase)
        ||| !self.bases_remain(cursor) && !(crate::phase::spec_next_phase(cursor.phase, self.settings.max_replacements) matches Some(
            next,
        ) && !phase_lt(through, next))
    }

    fn phase_position(&self, phase: SearchPhase) -> (position: Option<usize>)
        ensures
            position matches Some(p) ==> p < self.phases@.len() && self.phases@[p as int].phase == phase && forall|q: int|
                0 <= q < p ==> self.phases@[q].phase != phase,
            position is None ==> forall|q: int| 0 <= q < self.phases@.len() ==> self.phases@[q].phase != phase,
    {
        let mut p: usize = 0;
        while p < self.phases.len()
            invariant
                p <= self.phases@.len(),
                forall|q: int| 0 <= q < p ==> self.phases@[q].phase != phase,
            decreases self.phases@.len() - p,
        {
            if self.phases[p].phase == phase {
                return Some(p);
            }
            p = p + 1;
        }
        None
    }

    fn phase_for(&self, replacements: usize, variants: bool) -> (found: Option<SearchPhase>)
        requires
            self.valid(),
        ensures
            found matches Some(phase) ==> phase_enabled(phase, self.settings.max_replacements) && exists|p: int|
                0 <= p < self.phases@.len() && #[trigger] self.phases@[p].phase == phase && (forall|q: int|
                    0 <= q < p ==> !phase_kind(#[trigger] self.phases@[q].phase, replacements, variants)),
            found matches Some(phase) ==> phase_kind(phase, replacements, variants),
            found is None ==> forall|q: int|
                0 <= q < self.phases@.len() ==> !phase_kind(#[trigger] self.phases@[q].phase, replacements, variants),
    {
        let mut p: usize = 0;
        while p < self.phases.len()
            invariant
                self.valid(),
                p <= self.phases@.len(),
                forall|q: int| 0 <= q < p ==> !phase_kind(#[trigger] self.phases@[q].phase, replacements, variants),
            decreases self.phases@.len() - p,
        {
            let phase = self.phases[p].phase;
            if phase.replacement_count() == replacements && phase.includes_case_variants() == variants {
                proof {
                    assert(phase_enabled(self.phases@[p as int].phase, self.settings.max_replacements));
                }
                return Some(phase);
            }
            p = p + 1;
        }
        None
    }

    fn lookup_base(&self, keys: &Vec<Vec<u8>>, counts: &Vec<usize>) -> (found: Option<usize>)
        ensures
            found matches Some(i) ==> i < self.base_lookup@.len() && locates(self.base_lookup@[i as int], keys, counts)
                && forall|j: int| 0 <= j < i ==> !locates(#[trigger] self.base_lookup@[j], keys, counts),
            found is None ==> forall|j: int|
                0 <= j < self.base_lookup@.len() ==> !locates(#[trigger] self.base_lookup@[j], keys, counts),
    {
        let mut i: usize = 0;
        while i < self.base_lookup.len()
            invariant
                i <= self.base_lookup@.len(),
                forall|j: int| 0 <= j < i ==> !locates(#[trigger] self.base_lookup@[j], keys, counts),
            decreases self.base_lookup@.len() - i,
        {
            let entry = &self.base_lookup[i];
            if crate::bytes::words_eq(&entry.keys, keys) && same_counts(&entry.counts, counts) {
                return Some(i);
            }
            i = i + 1;
        }
        None
    }

    fn base_for(&self, replacements: usize, base_index: usize) -> (found: Option<&BasePlan>)
        requires
            self.valid(),
        ensures
            found matches Some(base) ==> base_plan_valid(*base, self.settings.order),
            found == (match self.first_with_replacements(replacements) {
                Some(p) => if base_index < self.phases@[p].bases@.len() {
                    Some(&self.phases@[p].bases@[base_index as int])
                } else {
                    None
                },
                None => None,
            }),
    {
        let mut p: usize = 0;
        while p < self.phases.len()
            invariant
                self.valid(),
                p <= self.phases@.len(),
                forall|q: int|
                    0 <= q < p ==> spec_replacement_count(#[trigger] self.phases@[q].phase) != replacements,
            decreases self.phases@.len() - p,
        {
            if self.phases[p].phase.replacement_count() == replacements {
                if base_index < self.phases[p].bases.len() {
                    proof {
                        assert(base_plan_valid(self.phases@[p as int].bases@[base_index as int], self.settings.order));
                    }
                    return Some(&self.phases[p].bases[base_index]);
                }
                return None;
            }
            p = p + 1;
        }
        None
    }

    /// Earliest position in the enumeration at which these passphrase bytes
    /// are produced, over every way to split them into the plan's words
    #[verifier::rlimit(100)]
    #[verifier::spinoff_prover]
    fn canonical_derivation(&self, passphrase: &Vec<u8>) -> (result: Result<DerivationKey, RecoverError>)
        requires
            self.valid(),
        ensures
            result matches Ok(key) ==> self.derives(passphrase@, key),
            result matches Ok(key) ==> forall|k: DerivationKey| #[trigger]
                self.exact_derives(passphrase@, k) ==> !key_lt(k, key),
            result matches Err(error) ==> error == RecoverError::CountOverflow,
    {
        let segmentations = self.trie.parse(passphrase);
        let mut canonical: Option<DerivationKey> = None;
        let max_replacements = self.settings.max_replacements;
        let mut s: usize = 0;
        while s < segmentations.len()
            invariant
                self.valid(),
                max_replacements == self.settings.max_replacements,
                s <= segmentations@.len(),
                forall|i: int|
                    0 <= i < segmentations@.len() ==> crate::trie::segmentation_shape(#[trigger] segmentations@[i]),
                forall|i: int|
                    0 <= i < segmentations@.len() ==> crate::trie::reads(
                        self.trie.words_view(),
                        #[trigger] segmentations@[i],
                        passphrase@,
                    ),
                canonical matches Some(k) ==> self.derives(passphrase@, k),
                forall|i: int, k: DerivationKey|
                    0 <= i < s && #[trigger] self.bounds(segmentations@[i], k) ==> (canonical matches Some(c)
                        && !key_lt(k, c)),
            decreases segmentations@.len() - s,
        {
            let segmentation = &segmentations[s];
            let ghost seg = segmentations@[s as int];
            let ghost start = canonical;
            let ghost here = s as int;
            proof {
                assert(crate::trie::segmentation_shape(segmentations@[s as int]));
                assert(crate::trie::reads(self.trie.words_view(), seg, passphrase@));
            }
            s = s + 1;
            let (keys, counts) = distinct_with_counts(&segmentation.words);
            let located = self.lookup_base(&keys, &counts);
            let locator = match located {
                Some(i) => &self.base_lookup[i],
                None => {
                    proof {
                        assert forall|k: DerivationKey| !self.bounds(seg, k) by {
                            if self.bounds(seg, k) {
                                let i = choose|i: int| self.bound_at(seg, k, i);
                                assert(locates(self.base_lookup@[i], &keys, &counts));
                            }
                        }
                        assert forall|i: int, k: DerivationKey|
                            0 <= i < s && #[trigger] self.bounds(segmentations@[i], k) implies (canonical matches Some(c)
                            && !key_lt(k, c)) by {
                            if i == here {
                                assert(segmentations@[i] == seg);
                            }
                        }
                    }
                    continue;
                },
            };
            let ghost li = located->Some_0 as int;
            proof {
                assert(locates_words(self.base_lookup@[li], deep(seg.words@)));
                assert forall|j: int| 0 <= j < li implies !locates_words(#[trigger] self.base_lookup@[j], deep(seg.words@)) by {
                    assert(!locates(self.base_lookup@[j], &keys, &counts));
                }
            }
            let base = match self.base_for(locator.replacements, locator.base_index) {
                Some(base) => base,
                None => return Err(RecoverError::CountOverflow),
            };
            let permutation = match position_in(&base.local_permutations, &segmentation.words) {
                Some(index) => PermutationOrder::Local(index),
                None => PermutationOrder::Lexical(rank_words(&base.keys, &base.counts, base.total, &segmentation.words)?),
            };
            let spacing_result = spacing_rank(
                segmentation.words.len(),
                self.settings.spacing,
                self.settings.concatenated_already_tried,
                segmentation.spacing_mask,
            );
            let spacing = match spacing_result {
                Ok(rank) => rank,
                Err(_) => {
                    proof {
                        assert forall|k: DerivationKey| !self.bounds(seg, k) by {
                            if self.bounds(seg, k) {
                                let i = choose|i: int| self.bound_at(seg, k, i);
                                assert(deep(seg.words@).len() == segmentation.words@.len());
                                lemma_spacing_named_allowed(
                                    deep(seg.words@).len(),
                                    self.settings,
                                    seg.spacing_mask,
                                    k.spacing_rank,
                                );
                            }
                        }
                        assert forall|i: int, k: DerivationKey|
                            0 <= i < s && #[trigger] self.bounds(segmentations@[i], k) implies (canonical matches Some(c)
                            && !key_lt(k, c)) by {
                            if i == here {
                                assert(segmentations@[i] == seg);
                            }
                        }
                    }
                    continue;
                },
            };
            let lower = variant_bit(CaseVariant::Lower);
            let mut all_lower = true;
            let mut v: usize = 0;
            while v < segmentation.variants.len()
                invariant
                    v <= segmentation.variants@.len(),
                    lower == 1u8,
                    all_lower == forall|j: int| 0 <= j < v ==> #[trigger] (segmentation.variants@[j] & 1u8) != 0,
                decreases segmentation.variants@.len() - v,
            {
                if segmentation.variants[v] & lower == 0 {
                    all_lower = false;
                }
                v = v + 1;
            }
            proof {
                let loc = self.base_lookup@[li];
                let p = self.first_with_replacements(loc.replacements)->Some_0;
                assert(permutation_named(self.phases@[p].bases@[loc.base_index as int], deep(seg.words@), permutation));
                assert(spacing_named(deep(seg.words@).len(), self.settings, seg.spacing_mask, spacing));
            }
            if all_lower {
                if let Some(phase) = self.phase_for(locator.replacements, false) {
                    let key = DerivationKey {
                        phase_index: phase.index(max_replacements),
                        base_index: locator.base_index,
                        permutation,
                        case_rank: 0,
                        spacing_rank: spacing,
                    };
                    proof {
                        assert(self.first_kind_at(locator.replacements, false, key.phase_index));
                        assert(self.entry_at(seg, key, li));
                        assert(self.entry_key(seg, key));
                        assert(self.derives(passphrase@, key));
                    }
                    let ghost prior = canonical;
                    canonical = Some(
                        match canonical {
                            Some(known) => if key_less(&key, &known) {
                                key
                            } else {
                                known
                            },
                            None => key,
                        },
                    );
                    proof {
                        if let Some(known) = prior {
                            lemma_key_min(key, known);
                            if let Some(c0) = start {
                                assert(!key_lt(c0, known));
                                lemma_key_le_trans(c0, known, canonical->Some_0);
                            }
                        } else {
                            lemma_key_order(key, key, key);
                        }
                        assert forall|k: DerivationKey|
                            #[trigger] self.bounds(seg, k) && self.lower_key_at(seg, k, li) implies (canonical matches Some(
                            c) && !key_lt(k, c)) by {
                            self.lemma_bound_place(seg, k, li, permutation, spacing);
                            self.lemma_first_kind_index(locator.replacements, false, k.phase_index, phase);
                            assert(k == key);
                        }
                    }
                } else {
                    proof {
                        assert forall|k: DerivationKey|
                            #[trigger] self.bounds(seg, k) && self.lower_key_at(seg, k, li) implies false by {}
                    }
                }
            } else {
                proof {
                    assert forall|k: DerivationKey|
                        #[trigger] self.bounds(seg, k) && self.lower_key_at(seg, k, li) implies false by {
                        assert(deep(seg.words@).len() == segmentation.variants@.len() || true);
                        let j = choose|j: int|
                            0 <= j < segmentation.variants@.len() && !((segmentation.variants@[j] & 1u8) != 0);
                        assert((seg.variants@[j] & 1u8) != 0);
                    }
                }
            }
            let ghost middle = canonical;
            proof {
                if let Some(c0) = start {
                    assert(middle matches Some(c) && !key_lt(c0, c));
                }
            }
            let minimum = minimum_case_rank(&segmentation.variants)?;
            if let Some(case_rank) = minimum {
                if let Some(phase) = self.phase_for(locator.replacements, true) {
                    let key = DerivationKey {
                        phase_index: phase.index(max_replacements),
                        base_index: locator.base_index,
                        permutation,
                        case_rank,
                        spacing_rank: spacing,
                    };
                    proof {
                        assert(case_rank_of(seg.variants@, case_rank));
                        assert(self.first_kind_at(locator.replacements, true, key.phase_index));
                        assert(self.entry_at(seg, key, li));
                        assert(self.entry_key(seg, key));
                        assert(self.derives(passphrase@, key));
                    }
                    let ghost prior = canonical;
                    canonical = Some(
                        match canonical {
                            Some(known) => if key_less(&key, &known) {
                                key
                            } else {
                                known
                            },
                            None => key,
                        },
                    );
                    proof {
                        if let Some(known) = prior {
                            lemma_key_min(key, known);
                        } else {
                            lemma_key_order(key, key, key);
                        }
                        assert forall|k: DerivationKey|
                            #[trigger] self.bounds(seg, k) && !self.lower_key_at(seg, k, li) implies (canonical matches Some(
                            c) && !key_lt(k, c)) by {
                            self.lemma_bound_place(seg, k, li, permutation, spacing);
                            self.lemma_first_kind_index(locator.replacements, true, k.phase_index, phase);
                            assert(least_case_rank(seg.variants@) == Some(case_rank as int));
                            assert(!key_lt(k, key));
                            lemma_key_le_trans(k, key, canonical->Some_0);
                        }
                    }
                } else {
                    proof {
                        assert forall|k: DerivationKey|
                            #[trigger] self.bounds(seg, k) && !self.lower_key_at(seg, k, li) implies false by {
                            self.lemma_bound_place(seg, k, li, permutation, spacing);
                        }
                    }
                }
            } else {
                proof {
                    assert forall|k: DerivationKey|
                        #[trigger] self.bounds(seg, k) && !self.lower_key_at(seg, k, li) implies false by {
                        self.lemma_bound_place(seg, k, li, permutation, spacing);
                        crate::casing::lemma_lower_unraised(crate::casing::preferred_pattern(seg.variants@));
                    }
                }
            }
            proof {
                assert forall|i: int, k: DerivationKey|
                    0 <= i < s && #[trigger] self.bounds(segmentations@[i], k) implies (canonical matches Some(c)
                    && !key_lt(k, c)) by {
                    if i == here {
                        assert(segmentations@[i] == seg);
                        if self.lower_key_at(seg, k, li) {
                            if let Some(m) = middle {
                                lemma_key_le_trans(k, m, canonical->Some_0);
                            }
                        }
                    } else {
                        let c0 = start->Some_0;
                        lemma_key_le_trans(c0, middle->Some_0, canonical->Some_0);
                        lemma_key_le_trans(k, c0, canonical->Some_0);
                    }
                }
            }
        }
        proof {
            assert forall|k: DerivationKey| #[trigger] self.exact_derives(passphrase@, k) implies (canonical matches Some(c)
                && !key_lt(k, c)) by {
                self.lemma_derivation_covered(passphrase@, segmentations@, k);
            }
        }
        match canonical {
            Some(key) => Ok(key),
            None => Err(RecoverError::CountOverflow),
        }
    }
}

impl RecoveryPlan {
    /// The next candidate at or after the cursor through phase `through`,
    /// moving the cursor past it; positions whose bytes are too long, or are
    /// produced earlier in the enumeration, are skipped. Gives up with
    /// `CountOverflow` after `u64::MAX` skipped positions.
    #[verifier::spinoff_prover]
    fn next_candidate(
        &self,
        cursor: &mut CandidateCursor,
        through: SearchPhase,
        cache: &mut Option<CachedPermutation>,
    ) -> (result: Result<Option<Candidate>, RecoverError>)
        requires
            self.valid(),
            cache_valid(*self, *old(cache)),
        ensures
            cache_valid(*self, *final(cache)),
            match result {
                Ok(Some(candidate)) => {
                    &&& phase_le(candidate.phase_view(), through)
                    &&& self.produces(
                        candidate.phase_view(),
                        utf8_all(candidate.words_view()),
                        utf8(candidate.passphrase_view()),
                    )
                    &&& final(cursor).completed == old(cursor).completed + 1
                    &&& final(cursor).phase == candidate.phase_view()
                    &&& self.canonical_check_view() ==> forall|k: DerivationKey| #[trigger]
                        self.exact_derives(utf8(candidate.passphrase_view()), k) ==> !key_lt(
                        k,
                        emitted_key(*final(cursor), self.settings.max_replacements),
                    )
                },
                Ok(None) => final(cursor).completed == old(cursor).completed && self.finished(*final(cursor), through),
                Err(error) => error == RecoverError::CountOverflow,
            },
            self.finished(*old(cursor), through) ==> (result matches Ok(None) && *final(cursor) == *old(cursor)),
    {
        let max_replacements = self.settings.max_replacements;
        let mut budget: u64 = u64::MAX;
        loop
            invariant
                self.valid(),
                max_replacements == self.settings.max_replacements,
                cache_valid(*self, *cache),
                cursor.completed == old(cursor).completed,
                self.finished(*old(cursor), through) ==> *cursor == *old(cursor) && budget == u64::MAX,
            decreases budget,
        {
            if budget == 0 {
                return Err(RecoverError::CountOverflow);
            }
            budget = budget - 1;
            if cursor.phase.is_after(through) {
                return Ok(None);
            }
            let plan_index = match self.phase_position(cursor.phase) {
                Some(p) => p,
                None => {
                    if !advance_phase(cursor, through, max_replacements) {
                        return Ok(None);
                    }
                    continue;
                },
            };
            let phase = &self.phases[plan_index];
            if cursor.base_index >= phase.bases.len() {
                proof {
                    if self.bases_remain(*cursor) {
                        let other = choose|other: int|
                            0 <= other < self.phases@.len() && #[trigger] self.phases@[other].phase == cursor.phase && (
                            forall|q: int| 0 <= q < other ==> self.phases@[q].phase != cursor.phase)
                                && cursor.base_index < self.phases@[other].bases@.len();
                        assert(other == plan_index as int) by {
                            if other < plan_index as int {
                                assert(self.phases@[other].phase != cursor.phase);
                            }
                            if other > plan_index as int {
                                assert(self.phases@[plan_index as int].phase != cursor.phase);
                            }
                        }
                    }
                }
                if !advance_phase(cursor, through, max_replacements) {
                    return Ok(None);
                }
                continue;
            }
            proof {
                assert(self.bases_remain(*cursor)) by {
                    assert(self.phases@[plan_index as int].phase == cursor.phase);
                }
                assert(!self.finished(*old(cursor), through));
            }
            let base_index = cursor.base_index;
            let base = &phase.bases[base_index];
            proof {
                assert(base_plan_valid(*base, self.settings.order));
                assert(phase_enabled(phase.phase, max_replacements));
            }
            let hit = match cache {
                Some(c) => c.plan_index == plan_index && c.base_index == base_index && c.cursor == cursor.permutation,
                None => false,
            };
            if !hit {
                match current_permutation(base, &mut cursor.permutation, self.settings.order)? {
                    None => {
                        cursor.base_index = base_index + 1;
                        cursor.permutation = PermutationCursor::Local { index: 0 };
                        cursor.case_rank = 0;
                        cursor.spacing_rank = 0;
                        continue;
                    },
                    Some((words, order)) => {
                        *cache = Some(
                            CachedPermutation {
                                plan_index,
                                phase: phase.phase,
                                base_index,
                                cursor: cursor.permutation,
                                words,
                                order,
                            },
                        );
                    },
                }
            }
            let cached = match cache {
                Some(c) => c,
                None => {
                    return Err(RecoverError::CountOverflow);
                },
            };
            if !(cached.plan_index == plan_index && cached.base_index == base_index) {
                return Err(RecoverError::CountOverflow);
            }
            proof {
                assert(cached.cursor == cursor.permutation);
                assert(order_names(cached.order, cursor.permutation));
            }
            let variants = phase.phase.includes_case_variants();
            let word_count = cached.words.len();
            let case_count = case_pattern_count(word_count, variants)?;
            if cursor.case_rank >= case_count {
                cursor.case_rank = 0;
                cursor.spacing_rank = 0;
                if let PermutationCursor::Lexical { rank } = cursor.permutation {
                    if rank == u128::MAX {
                        return Err(RecoverError::CountOverflow);
                    }
                }
                advance_permutation(&mut cursor.permutation, base.local_permutations.len());
                continue;
            }
            let case_rank = cursor.case_rank;
            let ghost order = deep(cached.words@);
            let ghost mut pattern: Seq<CaseVariant> = Seq::empty();
            proof {
                assert(letter_words(order));
            }
            let words = if variants {
                proof {
                    if word_count == 0 {
                        assert(pow_nat(3, 0) == 1);
                    }
                }
                let chosen = case_pattern_at(word_count, case_rank)?;
                proof {
                    pattern = chosen@;
                    assert forall|i: int| 0 <= i < cached.words@.len() implies #[trigger] cached.words@[i]@.len() > 0 by {
                        assert(order[i] == cached.words@[i]@);
                    }
                }
                apply_case_pattern(&cached.words, &chosen)
            } else {
                copy_words(&cached.words)
            };
            proof {
                assert forall|k: int| 0 <= k < deep(words@).len() implies is_letter_token(#[trigger] deep(words@)[k]) by {
                    if variants {
                        lemma_transformed_letters(order[k], pattern[k]);
                    }
                }
            }
            let patterns = spacing_patterns(words.len(), self.settings.spacing, self.settings.concatenated_already_tried)?;
            if cursor.spacing_rank >= patterns.len() as u128 {
                cursor.case_rank = case_rank + 1;
                cursor.spacing_rank = 0;
                continue;
            }
            let spacing = cursor.spacing_rank;
            let mask = patterns[spacing as usize];
            cursor.spacing_rank = spacing + 1;
            let passphrase = apply_spacing(&words, mask);
            if passphrase.len() > self.settings.max_passphrase_bytes {
                continue;
            }
            let key = DerivationKey {
                phase_index: phase.phase.index(max_replacements),
                base_index,
                permutation: cached.order,
                case_rank,
                spacing_rank: spacing,
            };
            if self.canonical_check_required {
                let canonical = self.canonical_derivation(&passphrase)?;
                if !key_equal(&canonical, &key) {
                    continue;
                }
            }
            proof {
                assert(key == emitted_key(*cursor, max_replacements));
            }
            cursor.completed = match cursor.completed.checked_add(1) {
                Some(completed) => completed,
                None => return Err(RecoverError::CountOverflow),
            };
            proof {
                lemma_spaced_ascii(deep(words@), mask);
                assert forall|i: int| 0 <= i < words@.len() implies is_ascii_bytes(#[trigger] words@[i]@) by {
                    assert(deep(words@)[i] == words@[i]@);
                    assert(is_letter_token(deep(words@)[i]));
                }
                assert(patterns@.contains(mask)) by {
                    assert(patterns@[spacing as int] == mask);
                }
                let base_view = self.phases@[plan_index as int].bases@[base_index as int];
                assert(base_yields(base_view, self.settings, phase.phase, deep(words@), passphrase@)) by {
                    assert(order_of_base(base_view, self.settings.order, order));
                    assert(spacing_patterns_spec(
                        deep(words@).len(),
                        self.settings.spacing,
                        self.settings.concatenated_already_tried,
                        patterns@,
                    ));
                    assert(apply_pattern(order, pattern) == apply_pattern(order, pattern));
                }
            }
            let candidate = Candidate::from_bytes(phase.phase, &passphrase, &words);
            proof {
                assert(utf8_all(candidate.words_view()) == deep(words@));
            }
            return Ok(Some(candidate));
        }
    }

    /// Generate up to `limit` candidates and advance the cursor to the next
    /// candidate
    pub fn next_batch(&self, cursor: &mut CandidateCursor, through: SearchPhase, limit: usize) -> (result: Result<
        Vec<Candidate>,
        RecoverError,
    >)
        requires
            self.valid(),
        ensures
            spec_replacement_count(through) > self.settings_view().max_replacements ==> (result matches Err(
                error) && error matches RecoverError::DisabledPhase(name) && name@ == phase_name(through)),
            spec_replacement_count(through) > self.settings_view().max_replacements ==> *final(cursor) == *old(cursor),
            match result {
                Ok(candidates) => {
                    &&& spec_replacement_count(through) <= self.settings_view().max_replacements
                    &&& candidates@.len() <= limit
                    &&& final(cursor).completed == old(cursor).completed + candidates@.len()
                    &&& forall|i: int|
                        0 <= i < candidates@.len() ==> phase_le((#[trigger] candidates@[i]).phase_view(), through)
                            && self.produces(
                            candidates@[i].phase_view(),
                            utf8_all(candidates@[i].words_view()),
                            utf8(candidates@[i].passphrase_view()),
                        )
                },
                Err(error) => error == RecoverError::CountOverflow || (error is DisabledPhase
                    && spec_replacement_count(through) > self.settings_view().max_replacements),
            },
            result matches Ok(candidates) && candidates@.len() < limit ==> self.finished(*final(cursor), through),
            self.finished(*old(cursor), through) && spec_replacement_count(through)
                <= self.settings_view().max_replacements ==> (result matches Ok(candidates) && candidates@.len() == 0
                && *final(cursor) == *old(cursor)),
    {
        if through.replacement_count() > self.settings.max_replacements {
            return Err(RecoverError::DisabledPhase(through.name()));
        }
        let mut candidates: Vec<Candidate> = Vec::new();
        let mut cache: Option<CachedPermutation> = None;
        let mut exhausted = false;
        while !exhausted && candidates.len() < limit
            invariant
                self.valid(),
                spec_replacement_count(through) <= self.settings.max_replacements,
                cache_valid(*self, cache),
                candidates@.len() <= limit,
                cursor.completed == old(cursor).completed + candidates@.len(),
                forall|i: int|
                    0 <= i < candidates@.len() ==> phase_le((#[trigger] candidates@[i]).phase_view(), through)
                        && self.produces(
                        candidates@[i].phase_view(),
                        utf8_all(candidates@[i].words_view()),
                        utf8(candidates@[i].passphrase_view()),
                    ),
                exhausted ==> self.finished(*cursor, through),
                self.finished(*old(cursor), through) ==> candidates@.len() == 0 && *cursor == *old(cursor),
            decreases limit - candidates@.len(), (if exhausted { 0int } else { 1int }),
        {
            match self.next_candidate(cursor, through, &mut cache)? {
                Some(candidate) => candidates.push(candidate),
                None => {
                    exhausted = true;
                },
            }
        }
        Ok(candidates)
    }
}

fn same_counts(a: &Vec<usize>, b: &Vec<usize>) -> (eq: bool)
    ensures
        eq == (a@ == b@),
{
    if a.len() != b.len() {
        return false;
    }
    let mut i: usize = 0;
    while i < a.len()
        invariant
            a@.len() == b@.len(),
            i <= a@.len(),
            forall|j: int| 0 <= j < i ==> a@[j] == b@[j],
        decreases a@.len() - i,
    {
        if a[i] != b[i] {
            return false;
        }
        i = i + 1;
    }
    assert(a@ =~= b@);
    true
}

fn position_in(orders: &Vec<Vec<Vec<u8>>>, words: &Vec<Vec<u8>>) -> (found: Option<usize>)
    ensures
        found matches Some(i) ==> i < orders@.len() && deep(orders@[i as int]@) == deep(words@) && forall|j: int|
            0 <= j < i ==> deep(#[trigger] orders@[j]@) != deep(words@),
        found is None ==> forall|j: int| 0 <= j < orders@.len() ==> deep(#[trigger] orders@[j]@) != deep(words@),
{
    let mut i: usize = 0;
    while i < orders.len()
        invariant
            i <= orders@.len(),
            forall|j: int| 0 <= j < i ==> deep(#[trigger] orders@[j]@) != deep(words@),
        decreases orders@.len() - i,
    {
        if crate::bytes::words_eq(&orders[i], words) {
            return Some(i);
        }
        i = i + 1;
    }
    None
}


/// Phases of the first `n` execution positions that the settings keep
pub open spec fn phases_upto(n: nat, settings: RecoverySettings) -> Seq<SearchPhase>
    decreases n,
{
    if n == 0 {
        Seq::empty()
    } else {
        let rest = phases_upto((n - 1) as nat, settings);
        let phase = crate::phase::spec_phase_at(n - 1, settings.max_replacements);
        if !settings.lowercase_already_tried || spec_includes_case_variants(phase) {
            rest.push(phase)
        } else {
            rest
        }
    }
}

/// Phases of a plan in execution order: every enabled phase, without the
/// lowercase-only ones when an earlier search already covered them
pub open spec fn planned_phases(settings: RecoverySettings) -> Seq<SearchPhase> {
    phases_upto((2 + 2 * settings.max_replacements) as nat, settings)
}

/// Total count of the leading summaries whose phase is at most `through`
pub open spec fn counted_through(summaries: Seq<PhaseSummary>, through: SearchPhase) -> nat
    decreases summaries.len(),
{
    if summaries.len() == 0 {
        0
    } else if phase_le(summaries[0].phase, through) {
        summaries[0].count as nat + counted_through(summaries.drop_first(), through)
    } else {
        0
    }
}

/// `a` is a prefix of `b`
pub open spec fn is_prefix(a: Seq<u8>, b: Seq<u8>) -> bool {
    a.len() <= b.len() && b.take(a.len() as int) == a
}

/// Some token has at most one byte or begins another token, so a passphrase
/// may split into tokens in more than one way
pub open spec fn ambiguous_tokens(tokens: Seq<Seq<u8>>) -> bool {
    exists|i: int, j: int|
        0 <= i < tokens.len() && 0 <= j < tokens.len() && (tokens[i].len() <= 1 || (i != j && is_prefix(
            #[trigger] tokens[i],
            #[trigger] tokens[j],
        )))
}

fn starts_with(word: &Vec<u8>, prefix: &Vec<u8>) -> (found: bool)
    ensures
        found == is_prefix(prefix@, word@),
{
    if prefix.len() > word.len() {
        return false;
    }
    let mut i: usize = 0;
    while i < prefix.len()
        invariant
            prefix@.len() <= word@.len(),
            i <= prefix@.len(),
            word@.take(i as int) == prefix@.take(i as int),
        decreases prefix@.len() - i,
    {
        if word[i] != prefix[i] {
            proof {
                assert(word@.take(prefix@.len() as int)[i as int] != prefix@[i as int]);
            }
            return false;
        }
        i = i + 1;
        assert(word@.take(i as int) =~= word@.take(i - 1).push(word@[i - 1]));
        assert(prefix@.take(i as int) =~= prefix@.take(i - 1).push(prefix@[i - 1]));
    }
    assert(prefix@.take(prefix@.len() as int) =~= prefix@);
    true
}

/// Whether candidates must be checked against their earliest derivation
pub fn tokens_require_canonical_check(tokens: &Vec<Vec<u8>>) -> (required: bool)
    ensures
        required == ambiguous_tokens(deep(tokens@)),
{
    let ghost t = deep(tokens@);
    let mut i: usize = 0;
    while i < tokens.len()
        invariant
            t == deep(tokens@),
            i <= tokens@.len(),
            forall|a: int, b: int|
                0 <= a < i && 0 <= b < t.len() ==> !(t[a].len() <= 1 || (a != b && is_prefix(
                    #[trigger] t[a],
                    #[trigger] t[b],
                ))),
        decreases tokens@.len() - i,
    {
        if tokens[i].len() <= 1 {
            proof {
                assert(t[i as int].len() <= 1);
            }
            return true;
        }
        let mut j: usize = 0;
        while j < tokens.len()
            invariant
                t == deep(tokens@),
                i < tokens@.len(),
                t[i as int].len() > 1,
                j <= tokens@.len(),
                forall|b: int| 0 <= b < j ==> !(i != b && is_prefix(t[i as int], #[trigger] t[b])),
            decreases tokens@.len() - j,
        {
            if j != i && starts_with(&tokens[j], &tokens[i]) {
                proof {
                    assert(is_prefix(t[i as int], t[j as int]));
                }
                return true;
            }
            j = j + 1;
        }
        i = i + 1;
    }
    false
}

fn copy_orders(orders: &Vec<Vec<Vec<u8>>>) -> (r: Vec<Vec<Vec<u8>>>)
    ensures
        deep_lists(r@) == deep_lists(orders@),
        r@.len() == orders@.len(),
{
    let mut r: Vec<Vec<Vec<u8>>> = Vec::new();
    let mut i: usize = 0;
    while i < orders.len()
        invariant
            i <= orders@.len(),
            r@.len() == i,
            forall|j: int| 0 <= j < i ==> deep(#[trigger] r@[j]@) == deep(orders@[j]@),
        decreases orders@.len() - i,
    {
        r.push(copy_words(&orders[i]));
        i = i + 1;
    }
    assert(deep_lists(r@) =~= deep_lists(orders@));
    r
}

fn copy_base(base: &BasePlan, order: OrderMode) -> (r: BasePlan)
    requires
        base_plan_valid(*base, order),
    ensures
        base_plan_valid(r, order),
        deep(r.words@) == deep(base.words@),
{
    let local = copy_orders(&base.local_permutations);
    let r = BasePlan {
        words: copy_words(&base.words),
        keys: copy_words(&base.keys),
        counts: copy_indices(&base.counts),
        total: base.total,
        local_permutations: local,
        lexical_count: base.lexical_count,
    };
    proof {
        assert(deep(r.local_permutations@[0]@) == deep_lists(r.local_permutations@)[0]);
        assert(deep(base.local_permutations@[0]@) == deep_lists(base.local_permutations@)[0]);
        assert forall|i: int| 0 <= i < r.local_permutations@.len() implies drawn_from(
            #[trigger] deep(r.local_permutations@[i]@),
            deep(r.words@),
        ) by {
            assert(deep(r.local_permutations@[i]@) == deep_lists(r.local_permutations@)[i]);
            assert(deep(base.local_permutations@[i]@) == deep_lists(base.local_permutations@)[i]);
            assert(drawn_from(deep(base.local_permutations@[i]@), deep(base.words@)));
        }
    }
    r
}

fn copy_bases(bases: &Vec<BasePlan>, order: OrderMode) -> (r: Vec<BasePlan>)
    requires
        forall|b: int| 0 <= b < bases@.len() ==> base_plan_valid(#[trigger] bases@[b], order),
    ensures
        r@.len() == bases@.len(),
        forall|b: int| 0 <= b < r@.len() ==> base_plan_valid(#[trigger] r@[b], order),
{
    let mut r: Vec<BasePlan> = Vec::new();
    let mut i: usize = 0;
    while i < bases.len()
        invariant
            i <= bases@.len(),
            r@.len() == i,
            forall|b: int| 0 <= b < bases@.len() ==> base_plan_valid(#[trigger] bases@[b], order),
            forall|b: int| 0 <= b < r@.len() ==> base_plan_valid(#[trigger] r@[b], order),
        decreases bases@.len() - i,
    {
        r.push(copy_base(&bases[i], order));
        i = i + 1;
    }
    r
}

/// Neighbor words of each written token, as bytes
fn neighbor_table(suggestions: &Vec<NeighborSuggestion>) -> (table: Vec<Vec<Neighbor>>)
    requires
        forall|i: int, k: int|
            0 <= i < suggestions@.len() && 0 <= k < suggestions@[i].neighbors@.len() ==> crate::neighbors::is_lowercase_word(
                #[trigger] suggestions@[i].neighbors@[k].word@,
            ),
    ensures
        table@.len() == suggestions@.len(),
        forall|p: int, r: int|
            0 <= p < table@.len() && 0 <= r < table@[p]@.len() ==> is_letter_token(#[trigger] table@[p]@[r].word@),
        forall|p: int| 0 <= p < table@.len() ==> (#[trigger] table@[p])@.len() == suggestions@[p].neighbors@.len(),
        forall|p: int, r: int|
            0 <= p < table@.len() && 0 <= r < table@[p]@.len() ==> (#[trigger] table@[p]@[r]).word@ == encode_utf8(
                suggestions@[p].neighbors@[r].word@,
            ) && table@[p]@[r].distance == suggestions@[p].neighbors@[r].distance,
{
    let mut table: Vec<Vec<Neighbor>> = Vec::new();
    let mut i: usize = 0;
    while i < suggestions.len()
        invariant
            i <= suggestions@.len(),
            table@.len() == i,
            forall|a: int, k: int|
                0 <= a < suggestions@.len() && 0 <= k < suggestions@[a].neighbors@.len() ==> crate::neighbors::is_lowercase_word(
                    #[trigger] suggestions@[a].neighbors@[k].word@,
                ),
            forall|p: int, r: int|
                0 <= p < table@.len() && 0 <= r < table@[p]@.len() ==> is_letter_token(#[trigger] table@[p]@[r].word@),
            forall|p: int| 0 <= p < table@.len() ==> (#[trigger] table@[p])@.len() == suggestions@[p].neighbors@.len(),
            forall|p: int, r: int|
                0 <= p < table@.len() && 0 <= r < table@[p]@.len() ==> (#[trigger] table@[p]@[r]).word@ == encode_utf8(
                    suggestions@[p].neighbors@[r].word@,
                ) && table@[p]@[r].distance == suggestions@[p].neighbors@[r].distance,
        decreases suggestions@.len() - i,
    {
        let neighbors = &suggestions[i].neighbors;
        let mut row: Vec<Neighbor> = Vec::new();
        let mut k: usize = 0;
        while k < neighbors.len()
            invariant
                i < suggestions@.len(),
                neighbors == suggestions@[i as int].neighbors,
                k <= neighbors@.len(),
                forall|a: int, j: int|
                    0 <= a < suggestions@.len() && 0 <= j < suggestions@[a].neighbors@.len() ==> crate::neighbors::is_lowercase_word(
                        #[trigger] suggestions@[a].neighbors@[j].word@,
                    ),
                forall|r: int| 0 <= r < row@.len() ==> is_letter_token(#[trigger] row@[r].word@),
                row@.len() == k,
                forall|r: int|
                    0 <= r < row@.len() ==> (#[trigger] row@[r]).word@ == encode_utf8(neighbors@[r].word@)
                        && row@[r].distance == neighbors@[r].distance,
            decreases neighbors@.len() - k,
        {
            let word = string_bytes(&neighbors[k].word);
            proof {
                lemma_lowercase_bytes(neighbors@[k as int].word@);
            }
            row.push(Neighbor { word, distance: neighbors[k].distance });
            k = k + 1;
        }
        table.push(row);
        i = i + 1;
    }
    table
}


/// Trie of every base word and the first place each multiset is planned
fn build_plan_indexes(phases: &Vec<PhasePlan>, settings: &RecoverySettings) -> (indexes: (
    crate::trie::TokenTrie,
    Vec<BaseLocator>,
))
    requires
        phases_valid(phases@, *settings),
    ensures
        indexes.0.well_formed(),
        indexes.0.complete(),
        forall|i: int| 0 <= i < indexes.1@.len() ==> (#[trigger] indexes.1@[i]).keys@.len() == indexes.1@[i].counts@.len(),
{
    let mut all_words: Vec<Vec<u8>> = Vec::new();
    let mut lookup: Vec<BaseLocator> = Vec::new();
    let mut p: usize = 0;
    while p < phases.len()
        invariant
            p <= phases@.len(),
            phases_valid(phases@, *settings),
            forall|k: int| 0 <= k < all_words@.len() ==> is_letter_token(#[trigger] all_words@[k]@),
            forall|i: int| 0 <= i < lookup@.len() ==> (#[trigger] lookup@[i]).keys@.len() == lookup@[i].counts@.len(),
        decreases phases@.len() - p,
    {
        let phase = &phases[p];
        let mut b: usize = 0;
        while b < phase.bases.len()
            invariant
                p < phases@.len(),
                phase == phases@[p as int],
                b <= phase.bases@.len(),
                phases_valid(phases@, *settings),
                forall|k: int| 0 <= k < all_words@.len() ==> is_letter_token(#[trigger] all_words@[k]@),
                forall|i: int| 0 <= i < lookup@.len() ==> (#[trigger] lookup@[i]).keys@.len() == lookup@[i].counts@.len(),
            decreases phase.bases@.len() - b,
        {
            let base = &phase.bases[b];
            proof {
                assert(base_plan_valid(*base, settings.order));
            }
            let mut w: usize = 0;
            while w < base.words.len()
                invariant
                    w <= base.words@.len(),
                    base_plan_valid(*base, settings.order),
                    forall|k: int| 0 <= k < all_words@.len() ==> is_letter_token(#[trigger] all_words@[k]@),
                decreases base.words@.len() - w,
            {
                proof {
                    assert(deep(base.words@)[w as int] == base.words@[w as int]@);
                }
                all_words.push(copy_bytes(&base.words[w]));
                w = w + 1;
            }
            let mut known = false;
            let mut i: usize = 0;
            while i < lookup.len()
                invariant
                    i <= lookup@.len(),
                decreases lookup@.len() - i,
            {
                if crate::bytes::words_eq(&lookup[i].keys, &base.keys) && same_counts(&lookup[i].counts, &base.counts) {
                    known = true;
                }
                i = i + 1;
            }
            if !known {
                lookup.push(
                    BaseLocator {
                        keys: copy_words(&base.keys),
                        counts: copy_indices(&base.counts),
                        replacements: phase.phase.replacement_count(),
                        base_index: b,
                    },
                );
            }
            b = b + 1;
        }
        p = p + 1;
    }
    let (tokens, _counts) = distinct_with_counts(&all_words);
    proof {
        assert forall|k: int| 0 <= k < tokens@.len() implies is_letter_token(#[trigger] tokens@[k]@) by {
            assert(deep(tokens@)[k] == tokens@[k]@);
            crate::multiset::lemma_distinct_contains(deep(all_words@), tokens@[k]@);
            let j = choose|j: int| 0 <= j < deep(all_words@).len() && deep(all_words@)[j] == tokens@[k]@;
            assert(deep(all_words@)[j] == all_words@[j]@);
        }
    }
    (crate::trie::TokenTrie::new(tokens), lookup)
}

impl RecoveryPlan {
    /// Compile written words and settings into deterministic search phases
    pub fn compile(written_words: &WrittenWords, settings: RecoverySettings) -> (result: Result<Self, RecoverError>)
        requires
            written_words.well_formed(),
        ensures
            crate::domain::first_invalid_line(written_words.view()) > 0 ==> result == Err::<Self, RecoverError>(
                RecoverError::InvalidWrittenWord {
                    line: crate::domain::first_invalid_line(written_words.view()) as usize,
                },
            ),
            crate::domain::first_invalid_line(written_words.view()) == 0 ==> match result {
                Ok(plan) => {
                    &&& plan.valid()
                    &&& plan.settings_view() == settings
                    &&& settings_valid(written_words.view().len() as nat, settings)
                    &&& plan.summaries_view().map_values(|s: PhaseSummary| s.phase) == planned_phases(settings)
                    &&& suggests_nearest(
                        plan.suggestions_view(),
                        written_words.view(),
                        settings.neighbors_per_word as nat,
                    )
                },
                Err(error) => (error is InvalidSetting && !settings_valid(written_words.view().len() as nat, settings))
                    || (error == RecoverError::CountOverflow && settings_valid(written_words.view().len() as nat, settings)),
            },
    {
        let line = written_words.first_invalid();
        if line != 0 {
            return Err(RecoverError::InvalidWrittenWord { line });
        }
        let recipe = RecoveryRecipe::from_written_words(written_words);
        proof {
            assert(primary_words(recipe.view()) =~= written_words.view());
        }
        Self::compile_recipe(&recipe, settings)
    }

    /// Compile an advanced recipe and settings into deterministic search phases
    #[verifier::spinoff_prover]
    pub fn compile_recipe(recipe: &RecoveryRecipe, settings: RecoverySettings) -> (result: Result<Self, RecoverError>)
        requires
            recipe.well_formed(),
        ensures
            match result {
                Ok(plan) => {
                    &&& plan.valid()
                    &&& plan.settings_view() == settings
                    &&& settings_valid(recipe.view().len() as nat, settings)
                    &&& plan.summaries_view().map_values(|s: PhaseSummary| s.phase) == planned_phases(settings)
                    &&& suggests_nearest(
                        plan.suggestions_view(),
                        primary_words(recipe.view()),
                        settings.neighbors_per_word as nat,
                    )
                },
                Err(error) => (error is InvalidSetting && !settings_valid(recipe.view().len() as nat, settings)) || (
                error == RecoverError::CountOverflow && settings_valid(recipe.view().len() as nat, settings)),
            },
    {
        let slots = recipe.slots();
        match validate_settings(slots.len(), &settings) {
            Ok(()) => {},
            Err(error) => return Err(error),
        }
        let mut primary: Vec<String> = Vec::new();
        let mut i: usize = 0;
        while i < slots.len()
            invariant
                i <= slots@.len(),
                slots@ == recipe.view(),
                recipe.well_formed(),
                primary@.len() == i,
                forall|j: int| 0 <= j < i ==> #[trigger] primary@[j] == slots@[j].alternatives_view()[0],
            decreases slots@.len() - i,
        {
            assert(slots@[i as int].well_formed());
            let alternatives = slots[i].alternatives();
            if alternatives.len() > 0 {
                primary.push(alternatives[0].clone());
            }
            i = i + 1;
        }
        proof {
            assert(primary@ =~= primary_words(recipe.view()));
        }
        let suggestions = nearest_words(primary.as_slice(), settings.neighbors_per_word);
        let lists = recipe_bases(slots);
        let max_replacements = settings.max_replacements;
        let mut seen: Vec<MultisetKey> = Vec::new();
        let mut by_replacement: Vec<Vec<BasePlan>> = Vec::new();
        let mut replacements: usize = 0;
        while replacements <= max_replacements
            invariant
                settings_valid(slots@.len() as nat, settings),
                slots@ == recipe.view(),
                max_replacements == settings.max_replacements,
                max_replacements <= 100,
                replacements <= max_replacements + 1,
                by_replacement@.len() == replacements,
                forall|i: int, k: int|
                    0 <= i < lists@.len() && 0 <= k < lists@[i]@.len() ==> is_letter_token(#[trigger] lists@[i]@[k]@),
                forall|i: int| 0 <= i < lists@.len() ==> (#[trigger] lists@[i])@.len() <= slots@.len(),
                slots@.len() <= MAX_RECIPE_SLOTS,
                forall|r: int, b: int|
                    0 <= r < by_replacement@.len() && 0 <= b < by_replacement@[r]@.len() ==> base_plan_valid(
                        #[trigger] by_replacement@[r]@[b],
                        settings.order,
                    ),
            decreases max_replacements + 1 - replacements,
        {
            let mut bases: Vec<BasePlan> = Vec::new();
            let mut l: usize = 0;
            while l < lists.len()
                invariant
                    settings_valid(slots@.len() as nat, settings),
                slots@ == recipe.view(),
                    l <= lists@.len(),
                    replacements <= max_replacements,
                    forall|i: int, k: int|
                        0 <= i < lists@.len() && 0 <= k < lists@[i]@.len() ==> is_letter_token(#[trigger] lists@[i]@[k]@),
                    forall|i: int| 0 <= i < lists@.len() ==> (#[trigger] lists@[i])@.len() <= slots@.len(),
                    slots@.len() <= MAX_RECIPE_SLOTS,
                    forall|b: int| 0 <= b < bases@.len() ==> base_plan_valid(#[trigger] bases@[b], settings.order),
                decreases lists@.len() - l,
            {
                let list = &lists[l];
                l = l + 1;
                if replacements > list.len() {
                    continue;
                }
                proof {
                    assert forall|k: int| 0 <= k < list@.len() implies is_ascii_bytes(#[trigger] list@[k]@) by {
                        assert(is_letter_token(list@[k]@));
                    }
                }
                let strings = ascii_strings(list);
                let list_suggestions = nearest_words(strings.as_slice(), settings.neighbors_per_word);
                proof {
                    assert forall|i: int, k: int|
                        0 <= i < list_suggestions@.len() && 0 <= k < list_suggestions@[i].neighbors@.len() implies crate::neighbors::is_lowercase_word(
                            #[trigger] list_suggestions@[i].neighbors@[k].word@,
                        ) by {
                        let ranked = choose|ranked: Seq<int>|
                            crate::neighbors::nearest_ranking(strings@[i]@, settings.neighbors_per_word as nat, ranked)
                                && crate::neighbors::neighbors_match(
                                strings@[i]@,
                                list_suggestions@[i].neighbors@,
                                ranked,
                            );
                        assert(crate::neighbors::neighbors_match(strings@[i]@, list_suggestions@[i].neighbors@, ranked));
                    }
                    assert(crate::bases::letter_words(deep(list@))) by {
                        assert forall|k: int| 0 <= k < deep(list@).len() implies is_letter_token(#[trigger] deep(list@)[k]) by {
                            assert(deep(list@)[k] == list@[k]@);
                        }
                    }
                }
                let table = neighbor_table(&list_suggestions);
                let mut found = match ranked_bases(list, &table, replacements, &settings, &mut seen) {
                    Ok(found) => found,
                    Err(error) => return Err(error),
                };
                bases.append(&mut found);
            }
            by_replacement.push(bases);
            replacements = replacements + 1;
        }
        let all = SearchPhase::all(max_replacements);
        let mut staged: Vec<PhasePlan> = Vec::new();
        let mut a: usize = 0;
        while a < all.len()
            invariant
                settings_valid(slots@.len() as nat, settings),
                slots@ == recipe.view(),
                max_replacements == settings.max_replacements,
                max_replacements <= 100,
                a <= all@.len(),
                all@.len() == 2 + 2 * max_replacements,
                forall|i: int| 0 <= i < all@.len() ==> #[trigger] all@[i] == crate::phase::spec_phase_at(i, max_replacements),
                by_replacement@.len() == max_replacements + 1,
                forall|r: int, b: int|
                    0 <= r < by_replacement@.len() && 0 <= b < by_replacement@[r]@.len() ==> base_plan_valid(
                        #[trigger] by_replacement@[r]@[b],
                        settings.order,
                    ),
                phases_valid(staged@, settings),
                staged@.map_values(|p: PhasePlan| p.phase) == phases_upto(a as nat, settings),
            decreases all@.len() - a,
        {
            let phase = all[a];
            proof {
                assert(phase_enabled(phase, max_replacements));
            }
            let ghost before = staged@;
            if !settings.lowercase_already_tried || phase.includes_case_variants() {
                let count = phase.replacement_count();
                let bases = copy_bases(&by_replacement[count], settings.order);
                let ghost plan = PhasePlan { phase, bases, count: 0 };
                staged.push(PhasePlan { phase, bases, count: 0 });
                proof {
                    assert(staged@.map_values(|p: PhasePlan| p.phase) =~= before.map_values(|p: PhasePlan| p.phase).push(
                        phase,
                    ));
                    assert(staged@ == before.push(plan));
                    crate::language::lemma_phases_push(before, plan, settings);
                }
            }
            a = a + 1;
        }
        let counts = match unique_phase_counts(&staged, &settings) {
            Ok(counts) => counts,
            Err(error) => return Err(error),
        };
        let mut phases: Vec<PhasePlan> = Vec::new();
        let ghost staged_phases = staged@.map_values(|p: PhasePlan| p.phase);
        let ghost total = staged@.len();
        while staged.len() > 0
            invariant
                settings_valid(slots@.len() as nat, settings),
                slots@ == recipe.view(),
                max_replacements == settings.max_replacements,
                max_replacements <= 100,
                counts@.len() == 2 + 2 * max_replacements,
                phases_valid(staged@, settings),
                phases_valid(phases@, settings),
                phases@.len() + staged@.len() == total,
                phases@.map_values(|p: PhasePlan| p.phase) + staged@.map_values(|p: PhasePlan| p.phase) == staged_phases,
            decreases staged@.len(),
        {
            let ghost before_phases = phases@;
            let ghost before_staged = staged@;
            let plan = staged.remove(0);
            proof {
                assert(plan == before_staged[0]);
                assert(phase_enabled(plan.phase, max_replacements));
            }
            let count = counts[plan.phase.index(max_replacements)];
            let ghost pushed = PhasePlan { phase: plan.phase, bases: plan.bases, count };
            phases.push(PhasePlan { phase: plan.phase, bases: plan.bases, count });
            proof {
                assert forall|b: int| 0 <= b < pushed.bases@.len() implies base_plan_valid(
                    #[trigger] pushed.bases@[b],
                    settings.order,
                ) by {
                    assert(base_plan_valid(before_staged[0].bases@[b], settings.order));
                }
                assert(staged@ =~= before_staged.drop_first());
                assert(phases@.map_values(|p: PhasePlan| p.phase) + staged@.map_values(|p: PhasePlan| p.phase)
                    =~= before_phases.map_values(|p: PhasePlan| p.phase) + before_staged.map_values(|p: PhasePlan| p.phase));
                assert(before_phases.push(pushed) == phases@);
                crate::language::lemma_phases_push(before_phases, pushed, settings);
                crate::language::lemma_phases_drop_first(before_staged, settings);
            }
        }
        proof {
            assert(phases@.map_values(|p: PhasePlan| p.phase) =~= staged_phases);
        }
        let (trie, base_lookup) = build_plan_indexes(&phases, &settings);
        let canonical_check_required = tokens_require_canonical_check(trie.words()) || lists.len() > 1
            || settings.spacing != SpacingMode::Concatenated;
        let plan = RecoveryPlan { settings, suggestions, phases, trie, base_lookup, canonical_check_required };
        proof {
            assert(plan.summaries_view().map_values(|s: PhaseSummary| s.phase) =~= plan.phases@.map_values(
                |p: PhasePlan| p.phase,
            ));
        }
        Ok(plan)
    }

    /// Immutable recovery settings
    pub fn settings(&self) -> (settings: &RecoverySettings)
        ensures
            *settings == self.settings_view(),
    {
        &self.settings
    }

    /// Ranked word suggestions shown before a search begins
    pub fn neighbor_suggestions(&self) -> (suggestions: &[NeighborSuggestion])
        ensures
            suggestions@ == self.suggestions_view(),
    {
        self.suggestions.as_slice()
    }

    /// Suggestions for the first alternative of every slot
    pub closed spec fn suggestions_view(&self) -> Seq<NeighborSuggestion> {
        self.suggestions@
    }

    /// Exact candidate counts for enabled phases
    pub fn phase_summaries(&self) -> (summaries: Vec<PhaseSummary>)
        ensures
            summaries@ == self.summaries_view(),
    {
        let mut summaries: Vec<PhaseSummary> = Vec::new();
        let mut i: usize = 0;
        while i < self.phases.len()
            invariant
                i <= self.phases@.len(),
                summaries@ == self.summaries_view().take(i as int),
            decreases self.phases@.len() - i,
        {
            summaries.push(PhaseSummary { phase: self.phases[i].phase, count: self.phases[i].count });
            i = i + 1;
            assert(summaries@ =~= self.summaries_view().take(i as int));
        }
        assert(self.summaries_view().take(self.phases@.len() as int) =~= self.summaries_view());
        summaries
    }

    /// Total candidates from the first phase through `through`
    pub fn count_through(&self, through: SearchPhase) -> (result: Result<u128, RecoverError>)
        ensures
            match result {
                Ok(total) => spec_replacement_count(through) <= self.settings_view().max_replacements && total
                    == counted_through(self.summaries_view(), through),
                Err(error) => if spec_replacement_count(through) > self.settings_view().max_replacements {
                    error matches RecoverError::DisabledPhase(name) && name@ == phase_name(through)
                } else {
                    error == RecoverError::CountOverflow && counted_through(self.summaries_view(), through) > u128::MAX
                },
            },
    {
        if through.replacement_count() > self.settings.max_replacements {
            return Err(RecoverError::DisabledPhase(through.name()));
        }
        let ghost all = self.summaries_view();
        let mut total: u128 = 0;
        let mut i: usize = 0;
        proof {
            assert(all.skip(0) =~= all);
        }
        while i < self.phases.len()
            invariant
                spec_replacement_count(through) <= self.settings_view().max_replacements,
                all == self.summaries_view(),
                i <= all.len(),
                all.len() == self.phases@.len(),
                total + counted_through(all.skip(i as int), through) == counted_through(all, through),
            decreases all.len() - i,
        {
            let phase = &self.phases[i];
            proof {
                let rest = all.skip(i as int);
                assert(rest[0] == all[i as int]);
                assert(rest.drop_first() =~= all.skip(i + 1));
            }
            proof {
                crate::phase::lemma_phase_order_total(phase.phase, through);
            }
            if phase.phase.is_after(through) {
                return Ok(total);
            }
            total = match total.checked_add(phase.count) {
                Some(sum) => sum,
                None => return Err(RecoverError::CountOverflow),
            };
            i = i + 1;
        }
        proof {
            assert(all.skip(i as int).len() == 0);
        }
        Ok(total)
    }

    /// Whether candidates are filtered to the earliest derivation of their bytes
    pub fn canonical_check_required(&self) -> (required: bool)
        ensures
            required == self.canonical_check_view(),
    {
        self.canonical_check_required
    }

    /// Filter every candidate to the earliest derivation of its bytes, even
    /// where no two derivations can coincide
    pub fn require_canonical_check(&mut self)
        requires
            old(self).valid(),
        ensures
            final(self).valid(),
            final(self).canonical_check_view(),
            final(self).settings_view() == old(self).settings_view(),
            final(self).summaries_view() == old(self).summaries_view(),
    {
        self.canonical_check_required = true;
    }
}

} // verus!
