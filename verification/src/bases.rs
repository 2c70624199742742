//! Base word lists of a search: recipe choices, nearest-word replacements,
//! and the orders tried before exhaustive permutation

use vstd::prelude::*;

use crate::bytes::{
    total_len,
    lemma_indices_lt_total, lemma_words_lt_total, copy_bytes, copy_indices, copy_words, deep, indices_less, indices_lt, is_letter_token, lemma_bytes_lt_total, lemma_indices_lt_irreflexive,
    lemma_indices_lt_transitive, lemma_words_lt_irreflexive, lemma_words_lt_transitive, words_eq, words_less,
    words_lt,
};
use crate::combinatorics::{arrangement_count, arrangements, count_sum, total_count};
use crate::domain::{is_letter_string, TokenSlot};
use crate::error::RecoverError;
use crate::phase::SearchPhase;
use crate::multiset::{distinct_with_counts, distinct_words, lemma_distinct_contains, word_counts};
use crate::settings::{OrderMode, RecoverySettings};
use crate::text::{string_bytes, utf8};

verus! {

// ---------------------------------------------------------------------------
// Recipe choices
// ---------------------------------------------------------------------------

/// Marker of an omitted optional slot in a recipe choice
pub const OMITTED: usize = usize::MAX;

/// Words picked by a choice of one alternative, or an omission, per slot
pub open spec fn chosen_words(slots: Seq<TokenSlot>, choice: Seq<usize>) -> Seq<Seq<u8>>
    decreases choice.len(),
{
    if choice.len() == 0 {
        Seq::empty()
    } else {
        let rest = chosen_words(slots, choice.drop_last());
        if choice.last() == OMITTED {
            rest
        } else {
            rest.push(utf8(slots[choice.len() - 1].alternatives_view()[choice.last() as int]))
        }
    }
}

/// Each slot takes one of its alternatives, or is omitted when optional
pub open spec fn valid_choice_prefix(slots: Seq<TokenSlot>, choice: Seq<usize>) -> bool {
    &&& choice.len() <= slots.len()
    &&& forall|i: int|
        0 <= i < choice.len() ==> #[trigger] choice[i] < slots[i].alternatives_view().len() || (choice[i]
            == OMITTED && slots[i].optional_view())
}

pub open spec fn valid_choice(slots: Seq<TokenSlot>, choice: Seq<usize>) -> bool {
    valid_choice_prefix(slots, choice) && choice.len() == slots.len()
}

/// Number of omitted slots of a choice
pub open spec fn omissions(choice: Seq<usize>) -> nat
    decreases choice.len(),
{
    if choice.len() == 0 {
        0
    } else {
        omissions(choice.drop_last()) + if choice.last() == OMITTED {
            1nat
        } else {
            0nat
        }
    }
}

/// Word lists of a recipe: every list comes from a valid choice
pub open spec fn recipe_lists(slots: Seq<TokenSlot>, lists: Seq<Seq<Seq<u8>>>) -> bool {
    forall|i: int| 0 <= i < lists.len() ==> from_some_choice(slots, #[trigger] lists[i])
}

/// The words of some valid choice
pub open spec fn from_some_choice(slots: Seq<TokenSlot>, words: Seq<Seq<u8>>) -> bool {
    exists|c: Seq<usize>| valid_choice(slots, c) && chosen_words(slots, c) == words
}

/// No list occurs twice
pub open spec fn no_repeats<T>(lists: Seq<T>) -> bool {
    forall|a: int, b: int| 0 <= a < b < lists.len() ==> #[trigger] lists[a] != #[trigger] lists[b]
}

/// Byte contents of a list of word lists
pub open spec fn deep_lists(lists: Seq<Vec<Vec<u8>>>) -> Seq<Seq<Seq<u8>>> {
    lists.map_values(|l: Vec<Vec<u8>>| deep(l@))
}

struct RecipeChoice {
    omitted: usize,
    choice: Vec<usize>,
    words: Vec<Vec<u8>>,
}

/// Some entry records exactly this choice
spec fn records_choice(entries: Seq<RecipeChoice>, choice: Seq<usize>) -> bool {
    exists|i: int| 0 <= i < entries.len() && (#[trigger] entries[i]).choice@ == choice
}

/// Some list has exactly these words
spec fn list_present(lists: Seq<Vec<Vec<u8>>>, words: Seq<Seq<u8>>) -> bool {
    exists|j: int| 0 <= j < lists.len() && deep(lists[j]@) == words
}

spec fn entry_sound(slots: Seq<TokenSlot>, e: RecipeChoice) -> bool {
    &&& valid_choice(slots, e.choice@)
    &&& deep(e.words@) == chosen_words(slots, e.choice@)
    &&& e.omitted <= slots.len()
}

proof fn lemma_chosen_words_slots(slots: Seq<TokenSlot>, choice: Seq<usize>, i: int)
    requires
        valid_choice_prefix(slots, choice),
        forall|j: int| 0 <= j < slots.len() ==> #[trigger] slots[j].well_formed(),
    ensures
        forall|k: int| 0 <= k < chosen_words(slots, choice).len() ==> is_letter_token(#[trigger] chosen_words(slots, choice)[k]),
        chosen_words(slots, choice).len() <= choice.len(),
    decreases choice.len(),
{
    if choice.len() > 0 {
        let rest = choice.drop_last();
        assert(valid_choice_prefix(slots, rest)) by {
            assert forall|j: int| 0 <= j < rest.len() implies #[trigger] rest[j] < slots[j].alternatives_view().len()
                || (rest[j] == OMITTED && slots[j].optional_view()) by {
                assert(rest[j] == choice[j]);
            }
        }
        lemma_chosen_words_slots(slots, rest, i);
        let n = choice.len() - 1;
        if choice.last() != OMITTED {
            assert(choice[n] == choice.last());
            assert(slots[n].well_formed());
            assert(is_letter_string(slots[n].alternatives_view()[choice.last() as int]));
        }
    }
}

fn choose_alternatives(
    slots: &[TokenSlot],
    index: usize,
    current: &mut Vec<Vec<u8>>,
    choice: &mut Vec<usize>,
    omitted: usize,
    output: &mut Vec<RecipeChoice>,
)
    requires
        index <= slots@.len(),
        old(choice)@.len() == index,
        valid_choice_prefix(slots@, old(choice)@),
        deep(old(current)@) == chosen_words(slots@, old(choice)@),
        omitted <= index,
        forall|i: int| 0 <= i < old(output)@.len() ==> entry_sound(slots@, #[trigger] old(output)@[i]),
    ensures
        final(current)@ == old(current)@,
        final(choice)@ == old(choice)@,
        final(output)@.len() >= old(output)@.len(),
        forall|i: int| 0 <= i < old(output)@.len() ==> #[trigger] final(output)@[i] == old(output)@[i],
        forall|i: int| 0 <= i < final(output)@.len() ==> entry_sound(slots@, #[trigger] final(output)@[i]),
        forall|c: Seq<usize>|
            #[trigger] valid_choice(slots@, c) && c.take(index as int) == old(choice)@ ==> records_choice(
                final(output)@,
                c,
            ),
    decreases slots@.len() - index,
{
    if index == slots.len() {
        let ghost before = output@;
        output.push(RecipeChoice { omitted, choice: copy_indices(choice), words: copy_words(current) });
        proof {
            assert forall|c: Seq<usize>| #[trigger]
                valid_choice(slots@, c) && c.take(index as int) == old(choice)@ implies records_choice(output@, c) by {
                assert(c.take(index as int) =~= c);
                assert(output@[before.len() as int].choice@ == c);
            }
        }
        return;
    }
    let slot = &slots[index];
    let alternatives = slot.alternatives();
    let mut rank: usize = 0;
    while rank < alternatives.len()
        invariant
            index < slots.len(),
            alternatives@ == slots@[index as int].alternatives_view(),
            rank <= alternatives@.len(),
            choice@ == old(choice)@,
            current@ == old(current)@,
            valid_choice_prefix(slots@, choice@),
            choice@.len() == index,
            deep(current@) == chosen_words(slots@, choice@),
            omitted <= index,
            output@.len() >= old(output)@.len(),
            forall|i: int| 0 <= i < old(output)@.len() ==> #[trigger] output@[i] == old(output)@[i],
            forall|i: int| 0 <= i < output@.len() ==> entry_sound(slots@, #[trigger] output@[i]),
            forall|c: Seq<usize>|
                #[trigger] valid_choice(slots@, c) && c.take(index as int) == old(choice)@ && c[index as int]
                    < rank ==> records_choice(output@, c),
        decreases alternatives@.len() - rank,
    {
        current.push(string_bytes(&alternatives[rank]));
        choice.push(rank);
        proof {
            assert(choice@.drop_last() =~= old(choice)@);
            assert(deep(current@) =~= chosen_words(slots@, choice@));
        }
        let ghost pushed = choice@;
        let ghost before = output@;
        choose_alternatives(slots, index + 1, current, choice, omitted, output);
        choice.pop();
        current.pop();
        proof {
            assert(choice@ =~= old(choice)@);
            assert(current@ =~= old(current)@);
            assert forall|c: Seq<usize>| #[trigger]
                valid_choice(slots@, c) && c.take(index as int) == old(choice)@ && c[index as int] < rank
                    + 1 implies records_choice(output@, c) by {
                if c[index as int] == rank {
                    assert(c.take(index + 1) =~= pushed);
                } else {
                    let i = choose|i: int| 0 <= i < before.len() && (#[trigger] before[i]).choice@ == c;
                    assert(output@[i] == before[i]);
                }
            }
        }
        rank = rank + 1;
    }
    if slot.is_optional() {
        choice.push(OMITTED);
        proof {
            assert(choice@.drop_last() =~= old(choice)@);
        }
        let ghost pushed = choice@;
        let ghost before = output@;
        choose_alternatives(slots, index + 1, current, choice, omitted + 1, output);
        choice.pop();
        proof {
            assert(choice@ =~= old(choice)@);
            assert forall|c: Seq<usize>| #[trigger]
                valid_choice(slots@, c) && c.take(index as int) == old(choice)@ implies records_choice(output@, c) by {
                if c[index as int] == OMITTED {
                    assert(c.take(index + 1) =~= pushed);
                } else {
                    assert(c[index as int] < alternatives@.len());
                    let i = choose|i: int| 0 <= i < before.len() && (#[trigger] before[i]).choice@ == c;
                    assert(output@[i] == before[i]);
                }
            }
        }
    } else {
        proof {
            assert forall|c: Seq<usize>| #[trigger]
                valid_choice(slots@, c) && c.take(index as int) == old(choice)@ implies records_choice(output@, c) by {
                assert(c[index as int] < alternatives@.len());
            }
        }
    }
}

fn contains_list(lists: &Vec<Vec<Vec<u8>>>, words: &Vec<Vec<u8>>) -> (found: bool)
    ensures
        found == exists|i: int| 0 <= i < lists@.len() && #[trigger] deep(lists@[i]@) == deep(words@),
{
    let mut i: usize = 0;
    while i < lists.len()
        invariant
            i <= lists@.len(),
            forall|j: int| 0 <= j < i ==> #[trigger] deep(lists@[j]@) != deep(words@),
        decreases lists@.len() - i,
    {
        if words_eq(&lists[i], words) {
            return true;
        }
        i = i + 1;
    }
    false
}

/// Word lists for every recipe choice, fewest omissions first, then by the
/// alternatives' ranks, each distinct list once
pub fn recipe_bases(slots: &[TokenSlot]) -> (lists: Vec<Vec<Vec<u8>>>)
    requires
        forall|j: int| 0 <= j < slots@.len() ==> #[trigger] slots@[j].well_formed(),
    ensures
        recipe_lists(slots@, deep_lists(lists@)),
        no_repeats(deep_lists(lists@)),
        forall|i: int, k: int|
            0 <= i < lists@.len() && 0 <= k < lists@[i]@.len() ==> is_letter_token(#[trigger] lists@[i]@[k]@),
        forall|i: int| 0 <= i < lists@.len() ==> (#[trigger] lists@[i])@.len() <= slots@.len(),
        forall|c: Seq<usize>| #[trigger]
            valid_choice(slots@, c) ==> deep_lists(lists@).contains(chosen_words(slots@, c)),
{
    let mut entries: Vec<RecipeChoice> = Vec::new();
    let mut current: Vec<Vec<u8>> = Vec::new();
    let mut choice: Vec<usize> = Vec::new();
    proof {
        assert(deep(current@) =~= chosen_words(slots@, choice@));
    }
    choose_alternatives(slots, 0, &mut current, &mut choice, 0, &mut entries);
    let mut lists: Vec<Vec<Vec<u8>>> = Vec::new();
    let ghost mut choices: Seq<Seq<usize>> = Seq::empty();
    let mut missing: usize = 0;
    let mut more = true;
    while more
        invariant
            missing <= slots@.len(),
            forall|i: int| 0 <= i < entries@.len() ==> entry_sound(slots@, #[trigger] entries@[i]),
            forall|j: int| 0 <= j < slots@.len() ==> #[trigger] slots@[j].well_formed(),
            choices.len() == lists@.len(),
            forall|i: int|
                0 <= i < lists@.len() ==> valid_choice(slots@, #[trigger] choices[i]) && deep(lists@[i]@)
                    == chosen_words(slots@, choices[i]),
            no_repeats(deep_lists(lists@)),
            forall|i: int|
                0 <= i < entries@.len() && ((#[trigger] entries@[i]).omitted < missing || !more) ==> list_present(
                    lists@,
                    deep(entries@[i].words@),
                ),
        decreases slots@.len() - missing + (if more { 1int } else { 0int }),
    {
        let mut e: usize = 0;
        while e < entries.len()
            invariant
                forall|i: int| 0 <= i < entries@.len() ==> entry_sound(slots@, #[trigger] entries@[i]),
                e <= entries@.len(),
                choices.len() == lists@.len(),
                forall|i: int|
                    0 <= i < lists@.len() ==> valid_choice(slots@, #[trigger] choices[i]) && deep(lists@[i]@)
                        == chosen_words(slots@, choices[i]),
                no_repeats(deep_lists(lists@)),
                forall|i: int|
                    0 <= i < entries@.len() && ((#[trigger] entries@[i]).omitted < missing || (i < e
                        && entries@[i].omitted == missing)) ==> list_present(lists@, deep(entries@[i].words@)),
            decreases entries@.len() - e,
        {
            let ghost lists_before = lists@;
            if entries[e].omitted == missing && !contains_list(&lists, &entries[e].words) {
                let ghost before = deep_lists(lists@);
                lists.push(copy_words(&entries[e].words));
                proof {
                    assert(deep(lists@[lists@.len() - 1]@) == deep(entries@[e as int].words@));
                    assert forall|i: int|
                        0 <= i < entries@.len() && ((#[trigger] entries@[i]).omitted < missing || (i < e + 1
                            && entries@[i].omitted == missing)) implies list_present(lists@, deep(entries@[i].words@)) by {
                        if i != e {
                            let j = choose|j: int| 0 <= j < lists_before.len() && deep(lists_before[j]@) == deep(
                                entries@[i].words@,
                            );
                            assert(lists@[j] == lists_before[j]);
                        } else {
                            assert(lists@[lists@.len() - 1] == lists@[lists@.len() - 1]);
                        }
                    }
                    choices = choices.push(entries[e as int].choice@);
                    let after = deep_lists(lists@);
                    assert forall|a: int, b: int| 0 <= a < b < after.len() implies #[trigger] after[a]
                        != #[trigger] after[b] by {
                        if b == after.len() - 1 {
                            assert(after[a] == deep(lists@[a]@));
                        } else {
                            assert(after[a] == before[a] && after[b] == before[b]);
                        }
                    }
                }
            } else {
                proof {
                    if entries@[e as int].omitted == missing {
                        let j = choose|j: int| 0 <= j < lists@.len() && #[trigger] deep(lists@[j]@) == deep(
                            entries@[e as int].words@,
                        );
                        assert(list_present(lists@, deep(entries@[e as int].words@)));
                    }
                }
            }
            e = e + 1;
        }
        if missing == slots.len() {
            more = false;
            proof {
                assert forall|i: int|
                    0 <= i < entries@.len() && ((#[trigger] entries@[i]).omitted < missing || !more) implies list_present(
                    lists@,
                    deep(entries@[i].words@),
                ) by {
                    assert(entry_sound(slots@, entries@[i]));
                }
            }
        } else {
            missing = missing + 1;
        }
    }
    proof {
        assert forall|c: Seq<usize>| #[trigger] valid_choice(slots@, c) implies deep_lists(lists@).contains(
            chosen_words(slots@, c),
        ) by {
            assert(c.take(0) =~= Seq::<usize>::empty());
            let i = choose|i: int| 0 <= i < entries@.len() && (#[trigger] entries@[i]).choice@ == c;
            assert(entry_sound(slots@, entries@[i]));
            let j = choose|j: int| 0 <= j < lists@.len() && deep(lists@[j]@) == deep(entries@[i].words@);
            assert(deep_lists(lists@)[j] == deep(lists@[j]@));
        }
        assert(recipe_lists(slots@, deep_lists(lists@))) by {
            assert forall|i: int| 0 <= i < deep_lists(lists@).len() implies from_some_choice(
                slots@,
                #[trigger] deep_lists(lists@)[i],
            ) by {
                let c = choices[i];
                assert(valid_choice(slots@, c));
                assert(deep_lists(lists@)[i] == chosen_words(slots@, c));
            }
        }
        assert forall|i: int, k: int|
            0 <= i < lists@.len() && 0 <= k < lists@[i]@.len() implies is_letter_token(#[trigger] lists@[i]@[k]@) by {
            lemma_chosen_words_slots(slots@, choices[i], 0);
            assert(deep(lists@[i]@)[k] == lists@[i]@[k]@);
        }
        assert forall|i: int| 0 <= i < lists@.len() implies (#[trigger] lists@[i])@.len() <= slots@.len() by {
            lemma_chosen_words_slots(slots@, choices[i], 0);
            assert(deep(lists@[i]@).len() == lists@[i]@.len());
        }
    }
    lists
}


// ---------------------------------------------------------------------------
// Nearest-word replacements
// ---------------------------------------------------------------------------

/// A suggested word and its edit distance from the written token
pub struct Neighbor {
    pub word: Vec<u8>,
    pub distance: usize,
}

/// Written words with the selected neighbors put in place, in selection order
pub open spec fn replaced(
    written: Seq<Seq<u8>>,
    table: Seq<Vec<Neighbor>>,
    positions: Seq<usize>,
    ranks: Seq<usize>,
) -> Seq<Seq<u8>>
    decreases positions.len(),
{
    if positions.len() == 0 {
        written
    } else {
        let k = positions.len() - 1;
        replaced(written, table, positions.drop_last(), ranks.drop_last()).update(
            positions[k] as int,
            table[positions[k] as int]@[ranks[k] as int].word@,
        )
    }
}

/// Sum of the distances of the selected neighbors
pub open spec fn distance_total(table: Seq<Vec<Neighbor>>, positions: Seq<usize>, ranks: Seq<usize>) -> nat
    decreases positions.len(),
{
    if positions.len() == 0 {
        0
    } else {
        let k = positions.len() - 1;
        distance_total(table, positions.drop_last(), ranks.drop_last()) + table[positions[k] as int]@[ranks[k] as int].distance as nat
    }
}

/// Increasing positions, each with a neighbor rank of that position
pub open spec fn valid_selection(n: nat, table: Seq<Vec<Neighbor>>, positions: Seq<usize>, ranks: Seq<usize>) -> bool {
    &&& positions.len() == ranks.len()
    &&& forall|i: int|
        0 <= i < positions.len() ==> #[trigger] positions[i] < n && ranks[i] < table[positions[i] as int]@.len()
    &&& forall|i: int, j: int| 0 <= i < j < positions.len() ==> #[trigger] positions[i] < #[trigger] positions[j]
}

/// A replacement base before ranking
pub struct RankedBase {
    pub words: Vec<Vec<u8>>,
    pub total_distance: u128,
    pub positions: Vec<usize>,
    pub neighbor_ranks: Vec<usize>,
}

/// The base replaces `k` written words by neighbors at increasing positions
pub open spec fn ranked_sound(written: Seq<Seq<u8>>, table: Seq<Vec<Neighbor>>, k: nat, b: RankedBase) -> bool {
    &&& valid_selection(written.len(), table, b.positions@, b.neighbor_ranks@)
    &&& b.positions@.len() == k
    &&& deep(b.words@) == replaced(written, table, b.positions@, b.neighbor_ranks@)
    &&& b.total_distance == distance_total(table, b.positions@, b.neighbor_ranks@)
}

proof fn lemma_distance_total_bound(table: Seq<Vec<Neighbor>>, positions: Seq<usize>, ranks: Seq<usize>)
    ensures
        distance_total(table, positions, ranks) <= positions.len() * (usize::MAX as nat),
    decreases positions.len(),
{
    if positions.len() > 0 {
        lemma_distance_total_bound(table, positions.drop_last(), ranks.drop_last());
        assert((positions.len() - 1) * (usize::MAX as nat) + usize::MAX as nat == positions.len() * (usize::MAX as nat)) by (nonlinear_arith);
    }
}

fn apply_selection(written: &Vec<Vec<u8>>, table: &Vec<Vec<Neighbor>>, positions: &Vec<usize>, ranks: &Vec<usize>) -> (base:
    RankedBase)
    requires
        table@.len() == written@.len(),
        valid_selection(written@.len() as nat, table@, positions@, ranks@),
    ensures
        base.positions@ == positions@,
        base.neighbor_ranks@ == ranks@,
        deep(base.words@) == replaced(deep(written@), table@, positions@, ranks@),
        base.total_distance == distance_total(table@, positions@, ranks@),
{
    let mut words = copy_words(written);
    let mut total: u128 = 0;
    let mut i: usize = 0;
    while i < positions.len()
        invariant
            i <= positions@.len(),
            table@.len() == written@.len(),
            valid_selection(written@.len() as nat, table@, positions@, ranks@),
            words@.len() == written@.len(),
            deep(words@) == replaced(deep(written@), table@, positions@.take(i as int), ranks@.take(i as int)),
            total == distance_total(table@, positions@.take(i as int), ranks@.take(i as int)),
        decreases positions@.len() - i,
    {
        let p = positions[i];
        let r = ranks[i];
        let neighbor = &table[p][r];
        proof {
            assert(positions@.take(i + 1).drop_last() =~= positions@.take(i as int));
            assert(ranks@.take(i + 1).drop_last() =~= ranks@.take(i as int));
            lemma_distance_total_bound(table@, positions@.take(i as int), ranks@.take(i as int));
            assert(i * (usize::MAX as nat) + usize::MAX as nat <= (usize::MAX as nat + 1) * (usize::MAX as nat)) by (nonlinear_arith)
                requires
                    i <= usize::MAX,
            ;
        }
        words.set(p, copy_bytes(&neighbor.word));
        total = total + neighbor.distance as u128;
        proof {
            assert(deep(words@) =~= replaced(deep(written@), table@, positions@.take(i + 1), ranks@.take(i + 1)));
        }
        i = i + 1;
    }
    proof {
        assert(positions@.take(positions@.len() as int) =~= positions@);
        assert(ranks@.take(ranks@.len() as int) =~= ranks@);
    }
    RankedBase { words, total_distance: total, positions: copy_indices(positions), neighbor_ranks: copy_indices(ranks) }
}

/// A full selection that continues the chosen prefix with `remaining` more
/// positions, the next of them at or after `next`
pub open spec fn continues_selection(
    n: nat,
    table: Seq<Vec<Neighbor>>,
    prefix_positions: Seq<usize>,
    prefix_ranks: Seq<usize>,
    remaining: nat,
    next: nat,
    positions: Seq<usize>,
    ranks: Seq<usize>,
) -> bool {
    &&& valid_selection(n, table, positions, ranks)
    &&& positions.len() == prefix_positions.len() + remaining
    &&& prefix_ranks.len() == prefix_positions.len()
    &&& positions.take(prefix_positions.len() as int) == prefix_positions
    &&& ranks.take(prefix_ranks.len() as int) == prefix_ranks
    &&& remaining > 0 ==> next <= positions[prefix_positions.len() as int]
}

/// Some listed base was made by exactly this selection
pub open spec fn lists_selection(output: Seq<RankedBase>, positions: Seq<usize>, ranks: Seq<usize>) -> bool {
    exists|i: int| 0 <= i < output.len() && (#[trigger] output[i]).positions@ == positions && output[i].neighbor_ranks@ == ranks
}

proof fn lemma_increasing_gap(positions: Seq<usize>, i: int, j: int)
    requires
        0 <= i <= j < positions.len(),
        forall|a: int, b: int| 0 <= a < b < positions.len() ==> #[trigger] positions[a] < #[trigger] positions[b],
    ensures
        positions[i] + (j - i) <= positions[j],
    decreases j - i,
{
    if i < j {
        lemma_increasing_gap(positions, i + 1, j);
        assert(positions[i] < positions[i + 1]);
    }
}

proof fn lemma_listing_kept(before: Seq<RankedBase>, after: Seq<RankedBase>, positions: Seq<usize>, ranks: Seq<usize>)
    requires
        lists_selection(before, positions, ranks),
        after.len() >= before.len(),
        forall|i: int| 0 <= i < before.len() ==> #[trigger] after[i] == before[i],
    ensures
        lists_selection(after, positions, ranks),
{
    let i = choose|i: int| 0 <= i < before.len() && (#[trigger] before[i]).positions@ == positions && before[i].neighbor_ranks@ == ranks;
    assert(after[i] == before[i]);
}

fn choose_replacement_positions(
    written: &Vec<Vec<u8>>,
    table: &Vec<Vec<Neighbor>>,
    remaining: usize,
    next_position: usize,
    positions: &mut Vec<usize>,
    ranks: &mut Vec<usize>,
    output: &mut Vec<RankedBase>,
)
    requires
        table@.len() == written@.len(),
        next_position <= written@.len(),
        valid_selection(written@.len() as nat, table@, old(positions)@, old(ranks)@),
        forall|i: int| 0 <= i < old(positions)@.len() ==> #[trigger] old(positions)@[i] < next_position,
        forall|i: int|
            0 <= i < old(output)@.len() ==> ranked_sound(
                deep(written@),
                table@,
                (old(positions)@.len() + remaining) as nat,
                #[trigger] old(output)@[i],
            ),
    ensures
        final(positions)@ == old(positions)@,
        final(ranks)@ == old(ranks)@,
        final(output)@.len() >= old(output)@.len(),
        forall|i: int| 0 <= i < old(output)@.len() ==> #[trigger] final(output)@[i] == old(output)@[i],
        forall|i: int|
            0 <= i < final(output)@.len() ==> ranked_sound(
                deep(written@),
                table@,
                (old(positions)@.len() + remaining) as nat,
                #[trigger] final(output)@[i],
            ),
        forall|p: Seq<usize>, r: Seq<usize>|
            #[trigger] continues_selection(
                written@.len() as nat,
                table@,
                old(positions)@,
                old(ranks)@,
                remaining as nat,
                next_position as nat,
                p,
                r,
            ) ==> lists_selection(final(output)@, p, r),
    decreases remaining,
{
    let ghost n = written@.len() as nat;
    let ghost pre_p = old(positions)@;
    let ghost pre_r = old(ranks)@;
    let ghost m = pre_p.len() as int;
    if remaining == 0 {
        let base = apply_selection(written, table, positions, ranks);
        output.push(base);
        proof {
            let last = output@.len() - 1;
            assert forall|p: Seq<usize>, r: Seq<usize>|
                #[trigger] continues_selection(n, table@, pre_p, pre_r, 0, next_position as nat, p, r) implies lists_selection(
                    output@,
                    p,
                    r,
                ) by {
                assert(p =~= p.take(m));
                assert(r =~= r.take(m));
                assert(output@[last].positions@ == p && output@[last].neighbor_ranks@ == r);
            }
        }
        return;
    }
    let final_start = if written.len() >= remaining {
        written.len() - remaining
    } else {
        0
    };
    let ghost k = (old(positions)@.len() + remaining) as nat;
    let mut position = next_position;
    while position <= final_start && position < written.len()
        invariant
            table@.len() == written@.len(),
            n == written@.len(),
            final_start <= written@.len(),
            written@.len() >= remaining ==> final_start + remaining == written@.len(),
            next_position <= position <= written@.len(),
            remaining > 0,
            k == old(positions)@.len() + remaining,
            pre_p == old(positions)@,
            pre_r == old(ranks)@,
            m == pre_p.len(),
            positions@ == old(positions)@,
            ranks@ == old(ranks)@,
            valid_selection(written@.len() as nat, table@, positions@, ranks@),
            forall|i: int| 0 <= i < positions@.len() ==> #[trigger] positions@[i] < next_position,
            output@.len() >= old(output)@.len(),
            forall|i: int| 0 <= i < old(output)@.len() ==> #[trigger] output@[i] == old(output)@[i],
            forall|i: int| 0 <= i < output@.len() ==> ranked_sound(deep(written@), table@, k, #[trigger] output@[i]),
            forall|p: Seq<usize>, r: Seq<usize>|
                #[trigger] continues_selection(n, table@, pre_p, pre_r, remaining as nat, next_position as nat, p, r)
                    && p[m] < position ==> lists_selection(output@, p, r),
        decreases written@.len() - position,
    {
        let mut rank: usize = 0;
        while rank < table[position].len()
            invariant
                table@.len() == written@.len(),
                n == written@.len(),
                position < written.len(),
                next_position <= position,
                remaining > 0,
                k == old(positions)@.len() + remaining,
                pre_p == old(positions)@,
                pre_r == old(ranks)@,
                m == pre_p.len(),
                positions@ == old(positions)@,
                ranks@ == old(ranks)@,
                valid_selection(written@.len() as nat, table@, positions@, ranks@),
                forall|i: int| 0 <= i < positions@.len() ==> #[trigger] positions@[i] < next_position,
                output@.len() >= old(output)@.len(),
                forall|i: int| 0 <= i < old(output)@.len() ==> #[trigger] output@[i] == old(output)@[i],
                forall|i: int| 0 <= i < output@.len() ==> ranked_sound(deep(written@), table@, k, #[trigger] output@[i]),
                forall|p: Seq<usize>, r: Seq<usize>|
                    #[trigger] continues_selection(n, table@, pre_p, pre_r, remaining as nat, next_position as nat, p, r)
                        && (p[m] < position || (p[m] == position && r[m] < rank)) ==> lists_selection(output@, p, r),
            decreases table@[position as int]@.len() - rank,
        {
            positions.push(position);
            ranks.push(rank);
            proof {
                assert forall|i: int, j: int| 0 <= i < j < positions@.len() implies #[trigger] positions@[i]
                    < #[trigger] positions@[j] by {
                    if j == positions@.len() - 1 {
                        assert(positions@[i] == old(positions)@[i]);
                    } else {
                        assert(positions@[i] == old(positions)@[i] && positions@[j] == old(positions)@[j]);
                    }
                }
                assert forall|i: int|
                    0 <= i < positions@.len() implies #[trigger] positions@[i] < written@.len() && ranks@[i]
                        < table@[positions@[i] as int]@.len() by {
                    if i < old(positions)@.len() {
                        assert(positions@[i] == old(positions)@[i] && ranks@[i] == old(ranks)@[i]);
                    }
                }
            }
            proof {
                assert((positions@.len() + (remaining - 1) as nat) as nat == k);
            }
            let ghost before = output@;
            let ghost inner_p = positions@;
            let ghost inner_r = ranks@;
            choose_replacement_positions(written, table, remaining - 1, position + 1, positions, ranks, output);
            positions.pop();
            ranks.pop();
            proof {
                assert(positions@ =~= old(positions)@);
                assert(ranks@ =~= old(ranks)@);
                assert forall|p: Seq<usize>, r: Seq<usize>|
                    #[trigger] continues_selection(n, table@, pre_p, pre_r, remaining as nat, next_position as nat, p, r)
                        && (p[m] < position || (p[m] == position && r[m] < rank + 1)) implies lists_selection(
                        output@,
                        p,
                        r,
                    ) by {
                    if p[m] < position || (p[m] == position && r[m] < rank) {
                        lemma_listing_kept(before, output@, p, r);
                    } else {
                        assert(p.take(m + 1) =~= inner_p);
                        assert(r.take(m + 1) =~= inner_r);
                        if remaining > 1 {
                            assert(p[m] < p[m + 1]);
                        }
                        assert(continues_selection(
                            n,
                            table@,
                            inner_p,
                            inner_r,
                            (remaining - 1) as nat,
                            (position + 1) as nat,
                            p,
                            r,
                        ));
                    }
                }
            }
            rank = rank + 1;
        }
        position = position + 1;
    }
    proof {
        assert forall|p: Seq<usize>, r: Seq<usize>|
            #[trigger] continues_selection(n, table@, pre_p, pre_r, remaining as nat, next_position as nat, p, r) implies lists_selection(
                output@,
                p,
                r,
            ) by {
            let last = p.len() - 1;
            lemma_increasing_gap(p, m, last);
            assert(p[last] < n);
        }
    }
}


// ---------------------------------------------------------------------------
// Ranking of replacement bases
// ---------------------------------------------------------------------------

/// Ranking order: total distance, then positions, then neighbor ranks, then words
pub open spec fn base_key_lt(a: RankedBase, b: RankedBase) -> bool {
    a.total_distance < b.total_distance || (a.total_distance == b.total_distance && (indices_lt(
        a.positions@,
        b.positions@,
    ) || (a.positions@ == b.positions@ && (indices_lt(a.neighbor_ranks@, b.neighbor_ranks@) || (
    a.neighbor_ranks@ == b.neighbor_ranks@ && words_lt(deep(a.words@), deep(b.words@)))))))
}

pub open spec fn same_key(a: RankedBase, b: RankedBase) -> bool {
    a.total_distance == b.total_distance && a.positions@ == b.positions@ && a.neighbor_ranks@
        == b.neighbor_ranks@ && deep(a.words@) == deep(b.words@)
}

proof fn lemma_base_key_order(a: RankedBase, b: RankedBase, c: RankedBase)
    ensures
        !base_key_lt(a, a),
        base_key_lt(a, b) ==> !base_key_lt(b, a),
        base_key_lt(a, b) && base_key_lt(b, c) ==> base_key_lt(a, c),
        !same_key(a, b) ==> base_key_lt(a, b) || base_key_lt(b, a),
        same_key(a, b) ==> base_key_lt(a, c) == base_key_lt(b, c) && base_key_lt(c, a) == base_key_lt(c, b),
{
    lemma_indices_lt_total(a.positions@, b.positions@);
    lemma_indices_lt_total(b.positions@, c.positions@);
    lemma_indices_lt_total(a.positions@, c.positions@);
    lemma_indices_lt_total(a.neighbor_ranks@, b.neighbor_ranks@);
    lemma_indices_lt_total(b.neighbor_ranks@, c.neighbor_ranks@);
    lemma_indices_lt_total(a.neighbor_ranks@, c.neighbor_ranks@);
    lemma_words_lt_total(deep(a.words@), deep(b.words@));
    lemma_words_lt_total(deep(b.words@), deep(c.words@));
    lemma_words_lt_total(deep(a.words@), deep(c.words@));
    lemma_indices_lt_irreflexive(a.positions@);
    lemma_indices_lt_irreflexive(a.neighbor_ranks@);
    lemma_words_lt_irreflexive(deep(a.words@));
    if base_key_lt(a, b) && base_key_lt(b, c) {
        if indices_lt(a.positions@, b.positions@) && indices_lt(b.positions@, c.positions@) {
            lemma_indices_lt_transitive(a.positions@, b.positions@, c.positions@);
        }
        if indices_lt(a.neighbor_ranks@, b.neighbor_ranks@) && indices_lt(b.neighbor_ranks@, c.neighbor_ranks@) {
            lemma_indices_lt_transitive(a.neighbor_ranks@, b.neighbor_ranks@, c.neighbor_ranks@);
        }
        if words_lt(deep(a.words@), deep(b.words@)) && words_lt(deep(b.words@), deep(c.words@)) {
            lemma_words_lt_transitive(deep(a.words@), deep(b.words@), deep(c.words@));
        }
    }
}

fn base_less(a: &RankedBase, b: &RankedBase) -> (lt: bool)
    ensures
        lt == base_key_lt(*a, *b),
{
    if a.total_distance != b.total_distance {
        return a.total_distance < b.total_distance;
    }
    if indices_less(a.positions.as_slice(), b.positions.as_slice()) {
        return true;
    }
    if indices_less(b.positions.as_slice(), a.positions.as_slice()) {
        proof {
            lemma_indices_lt_total(b.positions@, a.positions@);
        }
        return false;
    }
    proof {
        lemma_indices_lt_total(a.positions@, b.positions@);
    }
    if indices_less(a.neighbor_ranks.as_slice(), b.neighbor_ranks.as_slice()) {
        return true;
    }
    if indices_less(b.neighbor_ranks.as_slice(), a.neighbor_ranks.as_slice()) {
        proof {
            lemma_indices_lt_total(b.neighbor_ranks@, a.neighbor_ranks@);
        }
        return false;
    }
    proof {
        lemma_indices_lt_total(a.neighbor_ranks@, b.neighbor_ranks@);
    }
    words_less(&a.words, &b.words)
}

/// Bases in ranking order, ties kept in their original order
fn sort_ranked(input: Vec<RankedBase>) -> (sorted: Vec<RankedBase>)
    ensures
        sorted@.len() == input@.len(),
        forall|a: int, b: int|
            0 <= a < b < sorted@.len() ==> !base_key_lt(#[trigger] sorted@[b], #[trigger] sorted@[a]),
        forall|i: int| 0 <= i < sorted@.len() ==> input@.contains(#[trigger] sorted@[i]),
        forall|i: int| 0 <= i < input@.len() ==> sorted@.contains(#[trigger] input@[i]),
{
    let mut rest = input;
    let mut sorted: Vec<RankedBase> = Vec::new();
    while rest.len() > 0
        invariant
            rest@.len() + sorted@.len() == input@.len(),
            rest@ == input@.take(rest@.len() as int),
            forall|a: int, b: int|
                0 <= a < b < sorted@.len() ==> !base_key_lt(#[trigger] sorted@[b], #[trigger] sorted@[a]),
            forall|i: int| 0 <= i < sorted@.len() ==> input@.contains(#[trigger] sorted@[i]),
            forall|i: int| rest@.len() <= i < input@.len() ==> sorted@.contains(#[trigger] input@[i]),
        decreases rest@.len(),
    {
        let x = rest.pop().unwrap();
        proof {
            assert(input@[rest@.len() as int] == x);
            assert(rest@ =~= input@.take(rest@.len() as int));
        }
        let mut pos: usize = 0;
        while pos < sorted.len() && base_less(&sorted[pos], &x)
            invariant
                pos <= sorted@.len(),
                forall|t: int| 0 <= t < pos ==> base_key_lt(#[trigger] sorted@[t], x),
            decreases sorted@.len() - pos,
        {
            pos = pos + 1;
        }
        let ghost before = sorted@;
        sorted.insert(pos, x);
        proof {
            assert(sorted@ =~= before.take(pos as int).push(x) + before.skip(pos as int));
            assert forall|a: int, b: int|
                0 <= a < b < sorted@.len() implies !base_key_lt(#[trigger] sorted@[b], #[trigger] sorted@[a]) by {
                if b < pos {
                    assert(sorted@[a] == before[a] && sorted@[b] == before[b]);
                } else if b == pos {
                    assert(sorted@[a] == before[a]);
                    lemma_base_key_order(before[a], x, x);
                } else if a == pos {
                    let y = before[b - 1];
                    assert(sorted@[b] == y);
                    let z = before[pos as int];
                    lemma_base_key_order(y, x, z);
                    lemma_base_key_order(x, z, y);
                    lemma_base_key_order(y, z, x);
                    if b - 1 > pos {
                        assert(!base_key_lt(before[b - 1], before[pos as int]));
                    }
                } else if a < pos {
                    assert(sorted@[a] == before[a] && sorted@[b] == before[b - 1]);
                    if b - 1 >= pos {
                        let z = before[pos as int];
                        lemma_base_key_order(before[a], x, z);
                        lemma_base_key_order(before[b - 1], before[a], x);
                        lemma_base_key_order(x, z, before[b - 1]);
                        lemma_base_key_order(before[b - 1], z, x);
                        lemma_base_key_order(z, x, before[b - 1]);
                        lemma_base_key_order(before[b - 1], x, z);
                        if b - 1 > pos {
                            assert(!base_key_lt(before[b - 1], before[pos as int]));
                        }
                    }
                } else {
                    assert(sorted@[a] == before[a - 1] && sorted@[b] == before[b - 1]);
                }
            }
            assert forall|i: int| 0 <= i < sorted@.len() implies input@.contains(#[trigger] sorted@[i]) by {
                if i < pos {
                    assert(sorted@[i] == before[i]);
                } else if i == pos {
                    assert(input@[rest@.len() as int] == x);
                } else {
                    assert(sorted@[i] == before[i - 1]);
                }
            }
            assert forall|i: int| rest@.len() <= i < input@.len() implies sorted@.contains(#[trigger] input@[i]) by {
                if i == rest@.len() {
                    assert(sorted@[pos as int] == x);
                } else {
                    let t = choose|t: int| 0 <= t < before.len() && before[t] == input@[i];
                    if t < pos {
                        assert(sorted@[t] == before[t]);
                    } else {
                        assert(sorted@[t + 1] == before[t]);
                    }
                }
            }
        }
    }
    sorted
}

// ---------------------------------------------------------------------------
// Orders tried before exhaustive permutation
// ---------------------------------------------------------------------------

/// Same length, and every word is one of the base's words
pub open spec fn drawn_from(list: Seq<Seq<u8>>, words: Seq<Seq<u8>>) -> bool {
    list.len() == words.len() && forall|k: int| 0 <= k < list.len() ==> words.contains(#[trigger] list[k])
}

fn swapped_neighbors(current: &Vec<Vec<u8>>, index: usize) -> (next: Vec<Vec<u8>>)
    requires
        index + 1 < current.len(),
    ensures
        deep(next@) == deep(current@).update(index as int, current@[index + 1]@).update(
            index + 1,
            current@[index as int]@,
        ),
{
    let mut next = copy_words(current);
    let first = copy_bytes(&current[index]);
    let second = copy_bytes(&current[index + 1]);
    next.set(index, second);
    next.set(index + 1, first);
    proof {
        assert(deep(next@) =~= deep(current@).update(index as int, current@[index + 1]@).update(
            index + 1,
            current@[index as int]@,
        ));
    }
    next
}

/// Two adjacent words exchanged
pub open spec fn swap_adjacent(order: Seq<Seq<u8>>, i: int) -> Seq<Seq<u8>> {
    order.update(i, order[i + 1]).update(i + 1, order[i])
}

/// The orders reached by exchanging adjacent words at each position of a path
pub open spec fn apply_swaps(start: Seq<Seq<u8>>, path: Seq<int>) -> Seq<Seq<u8>>
    decreases path.len(),
{
    if path.len() == 0 {
        start
    } else {
        swap_adjacent(apply_swaps(start, path.drop_last()), path.last())
    }
}

/// Every exchange of the path is between two words of the list
pub open spec fn swaps_valid(start: Seq<Seq<u8>>, path: Seq<int>) -> bool {
    forall|k: int| 0 <= k < path.len() ==> 0 <= #[trigger] path[k] && path[k] + 1 < start.len()
}

/// The order is reached from `start` by at most `d` exchanges of adjacent
/// words
pub open spec fn within_swaps(start: Seq<Seq<u8>>, order: Seq<Seq<u8>>, d: nat) -> bool {
    exists|path: Seq<int>| path.len() <= d && swaps_valid(start, path) && #[trigger] apply_swaps(start, path) == order
}

proof fn lemma_apply_swaps_len(start: Seq<Seq<u8>>, path: Seq<int>)
    requires
        swaps_valid(start, path),
    ensures
        apply_swaps(start, path).len() == start.len(),
    decreases path.len(),
{
    if path.len() > 0 {
        let rest = path.drop_last();
        assert(swaps_valid(start, rest)) by {
            assert forall|k: int| 0 <= k < rest.len() implies 0 <= #[trigger] rest[k] && rest[k] + 1 < start.len() by {
                assert(rest[k] == path[k]);
            }
        }
        lemma_apply_swaps_len(start, rest);
        assert(0 <= path[path.len() - 1] && path[path.len() - 1] + 1 < start.len());
    }
}

proof fn lemma_within_zero(start: Seq<Seq<u8>>, o: Seq<Seq<u8>>)
    ensures
        within_swaps(start, o, 0) <==> o == start,
{
    if o == start {
        assert(apply_swaps(start, Seq::<int>::empty()) == start);
    }
}

proof fn lemma_within_last(start: Seq<Seq<u8>>, o: Seq<Seq<u8>>, d: nat) -> (r: (Seq<Seq<u8>>, int))
    requires
        within_swaps(start, o, d + 1),
        !within_swaps(start, o, d),
    ensures
        within_swaps(start, r.0, d),
        0 <= r.1,
        r.1 + 1 < r.0.len(),
        o == swap_adjacent(r.0, r.1),
{
    let path = choose|path: Seq<int>| path.len() <= d + 1 && swaps_valid(start, path) && #[trigger] apply_swaps(start, path) == o;
    if path.len() <= d {
        assert(false);
    }
    let rest = path.drop_last();
    assert(swaps_valid(start, rest)) by {
        assert forall|k: int| 0 <= k < rest.len() implies 0 <= #[trigger] rest[k] && rest[k] + 1 < start.len() by {
            assert(rest[k] == path[k]);
        }
    }
    let p = apply_swaps(start, rest);
    lemma_apply_swaps_len(start, rest);
    assert(path[path.len() - 1] == path.last());
    (p, path.last())
}

/// Some listed order has exactly these words
pub open spec fn lists_order(lists: Seq<Vec<Vec<u8>>>, order: Seq<Seq<u8>>) -> bool {
    exists|i: int| 0 <= i < lists.len() && #[trigger] deep(lists[i]@) == order
}

proof fn lemma_lists_order_grows(before: Seq<Vec<Vec<u8>>>, after: Seq<Vec<Vec<u8>>>)
    requires
        before.len() <= after.len(),
        forall|i: int| 0 <= i < before.len() ==> #[trigger] after[i] == before[i],
    ensures
        forall|o: Seq<Seq<u8>>| #[trigger] lists_order(before, o) ==> lists_order(after, o),
{
    assert forall|o: Seq<Seq<u8>>| #[trigger] lists_order(before, o) implies lists_order(after, o) by {
        let i = choose|i: int| 0 <= i < before.len() && #[trigger] deep(before[i]@) == o;
        assert(after[i] == before[i]);
    }
}

proof fn lemma_within_step(start: Seq<Seq<u8>>, p: Seq<Seq<u8>>, i: int, d: nat)
    requires
        within_swaps(start, p, d),
        0 <= i,
        i + 1 < p.len(),
    ensures
        within_swaps(start, swap_adjacent(p, i), d + 1),
{
    let path = choose|path: Seq<int>| path.len() <= d && swaps_valid(start, path) && #[trigger] apply_swaps(start, path) == p;
    lemma_apply_swaps_len(start, path);
    let longer = path.push(i);
    assert(longer.drop_last() =~= path);
    assert(swaps_valid(start, longer)) by {
        assert forall|k: int| 0 <= k < longer.len() implies 0 <= #[trigger] longer[k] && longer[k] + 1 < start.len() by {
            if k < path.len() {
                assert(longer[k] == path[k]);
            }
        }
    }
    assert(apply_swaps(start, longer) == swap_adjacent(p, i));
}

proof fn lemma_within_mono(start: Seq<Seq<u8>>, o: Seq<Seq<u8>>, a: nat, b: nat)
    requires
        within_swaps(start, o, a),
        a <= b,
    ensures
        within_swaps(start, o, b),
{
    let path = choose|path: Seq<int>| path.len() <= a && swaps_valid(start, path) && #[trigger] apply_swaps(start, path) == o;
}

proof fn lemma_within_stable(start: Seq<Seq<u8>>, d: nat, k: nat)
    requires
        d <= k,
        forall|o: Seq<Seq<u8>>| #[trigger] within_swaps(start, o, d + 1) ==> within_swaps(start, o, d),
    ensures
        forall|o: Seq<Seq<u8>>| #[trigger] within_swaps(start, o, k) ==> within_swaps(start, o, d),
    decreases k - d,
{
    if d < k {
        lemma_within_stable(start, d, (k - 1) as nat);
        assert forall|o: Seq<Seq<u8>>| #[trigger] within_swaps(start, o, k) implies within_swaps(start, o, d) by {
            if !within_swaps(start, o, (k - 1) as nat) {
                let r = lemma_within_last(start, o, (k - 1) as nat);
                assert(within_swaps(start, r.0, (k - 1) as nat));
                assert(within_swaps(start, r.0, d));
                lemma_within_step(start, r.0, r.1, d);
            }
        }
    }
}

/// Orders come by swap distance: an order within `d` adjacent swaps of the
/// start is preceded only by orders within `d` swaps
#[verifier::opaque]
pub open spec fn by_swap_distance(orders: Seq<Seq<Seq<u8>>>, start: Seq<Seq<u8>>) -> bool {
    forall|i: int, j: int, d: nat|
        0 <= i < j < orders.len() && #[trigger] within_swaps(start, orders[j], d) ==> within_swaps(
            start,
            #[trigger] orders[i],
            d,
        )
}

/// An order that is farther than every listed order may follow them
proof fn lemma_push_by_distance(orders: Seq<Vec<Vec<u8>>>, next: Seq<Seq<u8>>, start: Seq<Seq<u8>>, depth: nat)
    requires
        by_swap_distance(deep_lists(orders), start),
        forall|i: int| 0 <= i < orders.len() ==> within_swaps(start, #[trigger] deep(orders[i]@), depth + 1),
        !within_swaps(start, next, depth),
    ensures
        forall|v: Vec<Vec<u8>>| deep(v@) == next ==> #[trigger] by_swap_distance(deep_lists(orders.push(v)), start),
{
    reveal(by_swap_distance);
    assert forall|v: Vec<Vec<u8>>| deep(v@) == next implies #[trigger] by_swap_distance(deep_lists(orders.push(v)), start) by {
        let old_lists = deep_lists(orders);
        let all = deep_lists(orders.push(v));
        assert forall|i: int, j: int, d: nat|
            0 <= i < j < all.len() && #[trigger] within_swaps(start, all[j], d) implies within_swaps(
            start,
            #[trigger] all[i],
            d,
        ) by {
            assert(all[i] == deep(orders[i]@));
            if j < orders.len() {
                assert(all[j] == old_lists[j]);
                assert(all[i] == old_lists[i]);
            } else {
                assert(all[j] == next);
                if d <= depth {
                    lemma_within_mono(start, next, d, depth);
                }
                lemma_within_mono(start, deep(orders[i]@), depth + 1, d);
            }
        }
    }
}

/// Orders reachable by at most `radius` swaps of adjacent words, in
/// breadth-first order of discovery, starting with the words as given
pub fn local_permutations(words: &Vec<Vec<u8>>, radius: usize) -> (orders: Vec<Vec<Vec<u8>>>)
    ensures
        orders@.len() >= 1,
        deep(orders@[0]@) == deep(words@),
        no_repeats(deep_lists(orders@)),
        forall|i: int| 0 <= i < orders@.len() ==> drawn_from(#[trigger] deep(orders@[i]@), deep(words@)),
        forall|i: int| 0 <= i < orders@.len() ==> within_swaps(deep(words@), #[trigger] deep(orders@[i]@), radius as nat),
        forall|o: Seq<Seq<u8>>| #[trigger] within_swaps(deep(words@), o, radius as nat) ==> lists_order(orders@, o),
        by_swap_distance(deep_lists(orders@), deep(words@)),
{
    let ghost w = deep(words@);
    let mut orders: Vec<Vec<Vec<u8>>> = Vec::new();
    orders.push(copy_words(words));
    let mut layer: Vec<Vec<Vec<u8>>> = Vec::new();
    layer.push(copy_words(words));
    proof {
        assert forall|k: int| 0 <= k < w.len() implies w.contains(#[trigger] w[k]) by {}
        assert(deep(orders@[0]@) == w);
        assert(deep(layer@[0]@) == w);
        assert forall|o: Seq<Seq<u8>>| #[trigger] within_swaps(w, o, 0) implies lists_order(orders@, o) by {
            lemma_within_zero(w, o);
            assert(deep(orders@[0]@) == o);
        }
        assert forall|o: Seq<Seq<u8>>| #[trigger] within_swaps(w, o, 0) implies lists_order(layer@, o) by {
            lemma_within_zero(w, o);
            assert(deep(layer@[0]@) == o);
        }
        lemma_within_zero(w, w);
        reveal(by_swap_distance);
        assert(by_swap_distance(deep_lists(orders@), w));
    }
    let mut depth: usize = 0;
    while depth < radius && layer.len() > 0
        invariant
            w == deep(words@),
            depth <= radius,
            orders@.len() >= 1,
            deep(orders@[0]@) == w,
            no_repeats(deep_lists(orders@)),
            by_swap_distance(deep_lists(orders@), w),
            forall|i: int| 0 <= i < orders@.len() ==> drawn_from(#[trigger] deep(orders@[i]@), w),
            forall|i: int| 0 <= i < layer@.len() ==> drawn_from(#[trigger] deep(layer@[i]@), w),
            forall|i: int| 0 <= i < orders@.len() ==> within_swaps(w, #[trigger] deep(orders@[i]@), depth as nat),
            forall|o: Seq<Seq<u8>>| #[trigger] within_swaps(w, o, depth as nat) ==> lists_order(orders@, o),
            forall|i: int| 0 <= i < layer@.len() ==> within_swaps(w, #[trigger] deep(layer@[i]@), depth as nat),
            forall|o: Seq<Seq<u8>>|
                #[trigger] within_swaps(w, o, depth as nat) ==> lists_order(layer@, o) || (depth > 0 && within_swaps(
                    w,
                    o,
                    (depth - 1) as nat,
                )),
        decreases radius - depth,
    {
        let ghost start_orders = orders@;
        let mut next_layer: Vec<Vec<Vec<u8>>> = Vec::new();
        let mut l: usize = 0;
        while l < layer.len()
            invariant
                w == deep(words@),
                depth < radius,
                l <= layer@.len(),
                orders@.len() >= 1,
                deep(orders@[0]@) == w,
                no_repeats(deep_lists(orders@)),
                by_swap_distance(deep_lists(orders@), w),
                forall|i: int| 0 <= i < orders@.len() ==> drawn_from(#[trigger] deep(orders@[i]@), w),
                forall|i: int| 0 <= i < layer@.len() ==> drawn_from(#[trigger] deep(layer@[i]@), w),
                forall|i: int| 0 <= i < next_layer@.len() ==> drawn_from(#[trigger] deep(next_layer@[i]@), w),
                forall|i: int| 0 <= i < layer@.len() ==> within_swaps(w, #[trigger] deep(layer@[i]@), depth as nat),
                forall|i: int|
                    0 <= i < orders@.len() ==> within_swaps(w, #[trigger] deep(orders@[i]@), (depth + 1) as nat),
                forall|i: int|
                    0 <= i < next_layer@.len() ==> within_swaps(
                        w,
                        #[trigger] deep(next_layer@[i]@),
                        (depth + 1) as nat,
                    ),
                forall|o: Seq<Seq<u8>>| #[trigger] within_swaps(w, o, depth as nat) ==> lists_order(orders@, o),
                forall|o: Seq<Seq<u8>>|
                    #[trigger] lists_order(orders@, o) ==> lists_order(start_orders, o) || lists_order(next_layer@, o),
                forall|i: int| 0 <= i < start_orders.len() ==> within_swaps(w, #[trigger] deep(start_orders[i]@), depth as nat),
                forall|l2: int, i2: int|
                    0 <= l2 < l && 0 <= i2 && i2 + 1 < layer@[l2]@.len() ==> lists_order(
                        orders@,
                        #[trigger] swap_adjacent(deep(layer@[l2]@), i2),
                    ),
            decreases layer@.len() - l,
        {
            let current = &layer[l];
            proof {
                assert(within_swaps(w, deep(current@), depth as nat));
            }
            if current.len() >= 2 {
                let mut index: usize = 0;
                while index < current.len() - 1
                    invariant
                        current.len() >= 2,
                        w == deep(words@),
                        depth < radius,
                        l < layer@.len(),
                        current == layer@[l as int],
                        drawn_from(deep(current@), w),
                        within_swaps(w, deep(current@), depth as nat),
                        orders@.len() >= 1,
                        deep(orders@[0]@) == w,
                        no_repeats(deep_lists(orders@)),
                        by_swap_distance(deep_lists(orders@), w),
                        forall|i: int| 0 <= i < orders@.len() ==> drawn_from(#[trigger] deep(orders@[i]@), w),
                        forall|i: int|
                            0 <= i < next_layer@.len() ==> drawn_from(#[trigger] deep(next_layer@[i]@), w),
                        forall|i: int|
                            0 <= i < orders@.len() ==> within_swaps(w, #[trigger] deep(orders@[i]@), (depth + 1) as nat),
                        forall|i: int|
                            0 <= i < next_layer@.len() ==> within_swaps(
                                w,
                                #[trigger] deep(next_layer@[i]@),
                                (depth + 1) as nat,
                            ),
                        forall|o: Seq<Seq<u8>>| #[trigger] within_swaps(w, o, depth as nat) ==> lists_order(orders@, o),
                        forall|o: Seq<Seq<u8>>|
                            #[trigger] lists_order(orders@, o) ==> lists_order(start_orders, o) || lists_order(
                                next_layer@,
                                o,
                            ),
                        forall|l2: int, i2: int|
                            (0 <= l2 < l && 0 <= i2 && i2 + 1 < layer@[l2]@.len() || l2 == l && 0 <= i2 < index)
                                ==> lists_order(orders@, #[trigger] swap_adjacent(deep(layer@[l2]@), i2)),
                    decreases current@.len() - index,
                {
                    let next = swapped_neighbors(current, index);
                    proof {
                        let d = deep(next@);
                        assert(d =~= swap_adjacent(deep(current@), index as int));
                        assert forall|k: int| 0 <= k < d.len() implies w.contains(#[trigger] d[k]) by {
                            let c = deep(current@);
                            if k == index {
                                assert(d[k] == c[index + 1]);
                            } else if k == index + 1 {
                                assert(d[k] == c[index as int]);
                            } else {
                                assert(d[k] == c[k]);
                            }
                        }
                        lemma_within_step(w, deep(current@), index as int, depth as nat);
                    }
                    let ghost orders_before = orders@;
                    let ghost next_before = next_layer@;
                    if !contains_list(&orders, &next) {
                        let ghost before = deep_lists(orders@);
                        proof {
                            if within_swaps(w, deep(next@), depth as nat) {
                                assert(lists_order(orders@, deep(next@)));
                            }
                            lemma_push_by_distance(orders@, deep(next@), w, depth as nat);
                        }
                        orders.push(copy_words(&next));
                        proof {
                            assert(orders@ == orders_before.push(orders@.last()));
                            assert(by_swap_distance(deep_lists(orders_before.push(orders@.last())), w));
                            let after = deep_lists(orders@);
                            assert(after[after.len() - 1] == deep(next@));
                            assert forall|a: int, b: int| 0 <= a < b < after.len() implies #[trigger] after[a]
                                != #[trigger] after[b] by {
                                if b == after.len() - 1 {
                                    assert(after[a] == deep(orders@[a]@));
                                } else {
                                    assert(after[a] == before[a] && after[b] == before[b]);
                                }
                            }
                            assert(deep(orders@[0]@) == before[0]);
                        }
                        next_layer.push(next);
                        proof {
                            assert(deep(orders@[orders@.len() - 1]@) == deep(next@));
                            assert(deep(next_layer@[next_layer@.len() - 1]@) == deep(next@));
                            lemma_lists_order_grows(next_before, next_layer@);
                            assert forall|o: Seq<Seq<u8>>| #[trigger] lists_order(orders@, o) implies lists_order(
                                start_orders,
                                o,
                            ) || lists_order(next_layer@, o) by {
                                let j = choose|j: int| 0 <= j < orders@.len() && #[trigger] deep(orders@[j]@) == o;
                                if j < orders_before.len() {
                                    assert(orders_before[j] == orders@[j]);
                                    assert(lists_order(orders_before, o));
                                } else {
                                    assert(lists_order(next_layer@, o));
                                }
                            }
                        }
                    } else {
                        proof {
                            let j = choose|j: int| 0 <= j < orders@.len() && #[trigger] deep(orders@[j]@) == deep(next@);
                            assert(lists_order(orders@, deep(next@)));
                        }
                    }
                    proof {
                        lemma_lists_order_grows(orders_before, orders@);
                        lemma_lists_order_grows(next_before, next_layer@);
                        assert(lists_order(orders@, deep(next@)));
                    }
                    index = index + 1;
                }
            }
            l = l + 1;
        }
        proof {
            assert forall|o: Seq<Seq<u8>>| #[trigger] within_swaps(w, o, (depth + 1) as nat) implies lists_order(
                orders@,
                o,
            ) by {
                if !within_swaps(w, o, depth as nat) {
                    let r = lemma_within_last(w, o, depth as nat);
                    let p = r.0;
                    let i = r.1;
                    if depth > 0 && within_swaps(w, p, (depth - 1) as nat) {
                        lemma_within_step(w, p, i, (depth - 1) as nat);
                    } else {
                        assert(lists_order(layer@, p));
                        let l2 = choose|l2: int| 0 <= l2 < layer@.len() && #[trigger] deep(layer@[l2]@) == p;
                        assert(deep(layer@[l2]@).len() == layer@[l2]@.len());
                        assert(lists_order(orders@, swap_adjacent(deep(layer@[l2]@), i)));
                    }
                }
            }
            assert forall|o: Seq<Seq<u8>>| #[trigger] within_swaps(w, o, (depth + 1) as nat) implies lists_order(
                next_layer@,
                o,
            ) || ((depth + 1) > 0 && within_swaps(w, o, depth as nat)) by {
                assert(lists_order(orders@, o));
                if lists_order(start_orders, o) {
                    let j = choose|j: int| 0 <= j < start_orders.len() && #[trigger] deep(start_orders[j]@) == o;
                    assert(within_swaps(w, deep(start_orders[j]@), depth as nat));
                }
            }
        }
        layer = next_layer;
        depth = depth + 1;
    }
    proof {
        if depth < radius {
            assert forall|o: Seq<Seq<u8>>| #[trigger] within_swaps(w, o, (depth + 1) as nat) implies within_swaps(
                w,
                o,
                depth as nat,
            ) by {
                if !within_swaps(w, o, depth as nat) {
                    let r = lemma_within_last(w, o, depth as nat);
                    let p = r.0;
                    let i = r.1;
                    if lists_order(layer@, p) {
                        let l2 = choose|l2: int| 0 <= l2 < layer@.len() && #[trigger] deep(layer@[l2]@) == p;
                        assert(false);
                    }
                    lemma_within_step(w, p, i, (depth - 1) as nat);
                }
            }
            lemma_within_stable(w, depth as nat, radius as nat);
        }
        assert forall|i: int| 0 <= i < orders@.len() implies within_swaps(
            w,
            #[trigger] deep(orders@[i]@),
            radius as nat,
        ) by {
            lemma_within_mono(w, deep(orders@[i]@), depth as nat, radius as nat);
        }
    }
    orders
}


// ---------------------------------------------------------------------------
// Base plans
// ---------------------------------------------------------------------------

/// One base word list of a phase with everything its orders need
#[derive(Clone)]
pub struct BasePlan {
    pub words: Vec<Vec<u8>>,
    pub keys: Vec<Vec<u8>>,
    pub counts: Vec<usize>,
    pub total: usize,
    pub local_permutations: Vec<Vec<Vec<u8>>>,
    pub lexical_count: u128,
}

/// Multiset of a word list, as its distinct words and multiplicities
pub struct MultisetKey {
    pub keys: Vec<Vec<u8>>,
    pub counts: Vec<usize>,
}

pub open spec fn same_multiset(a: MultisetKey, b: MultisetKey) -> bool {
    deep(a.keys@) == deep(b.keys@) && a.counts@ == b.counts@
}

/// Letter tokens, at most one hundred of them
pub open spec fn letter_words(words: Seq<Seq<u8>>) -> bool {
    words.len() <= 100 && forall|k: int| 0 <= k < words.len() ==> is_letter_token(#[trigger] words[k])
}

/// A base plan agrees with its words and the order mode
pub open spec fn base_plan_valid(b: BasePlan, order: OrderMode) -> bool {
    let w = deep(b.words@);
    &&& letter_words(w)
    &&& deep(b.keys@) == distinct_words(w)
    &&& b.counts@ == word_counts(w)
    &&& b.total == count_sum(b.counts@)
    &&& count_sum(b.counts@) == w.len()
    &&& b.counts@.len() == b.keys@.len()
    &&& b.local_permutations@.len() >= 1
    &&& deep(b.local_permutations@[0]@) == w
    &&& no_repeats(deep_lists(b.local_permutations@))
    &&& forall|i: int|
        0 <= i < b.local_permutations@.len() ==> drawn_from(#[trigger] deep(b.local_permutations@[i]@), w)
    &&& order == OrderMode::Written ==> b.lexical_count == 0 && b.local_permutations@.len() == 1
    &&& order == OrderMode::Permuted ==> b.lexical_count == arrangements(b.counts@)
}

/// The written words with `k` of them replaced by neighbors
pub open spec fn replacement_of(written: Seq<Seq<u8>>, table: Seq<Vec<Neighbor>>, k: nat, words: Seq<Seq<u8>>) -> bool {
    exists|positions: Seq<usize>, ranks: Seq<usize>|
        valid_selection(written.len(), table, positions, ranks) && positions.len() == k && words == replaced(
            written,
            table,
            positions,
            ranks,
        )
}

fn multiset_seen(seen: &Vec<MultisetKey>, key: &MultisetKey) -> (found: bool)
    ensures
        found == exists|i: int| 0 <= i < seen@.len() && same_multiset(#[trigger] seen@[i], *key),
{
    let mut i: usize = 0;
    while i < seen.len()
        invariant
            i <= seen@.len(),
            forall|j: int| 0 <= j < i ==> !same_multiset(#[trigger] seen@[j], *key),
        decreases seen@.len() - i,
    {
        if words_eq(&seen[i].keys, &key.keys) && copy_equal(&seen[i].counts, &key.counts) {
            return true;
        }
        i = i + 1;
    }
    false
}

fn copy_equal(a: &Vec<usize>, b: &Vec<usize>) -> (eq: bool)
    ensures
        eq == (a@ == b@),
{
    if a.len() != b.len() {
        return false;
    }
    let mut i: usize = 0;
    while i < a.len()
        invariant
            a@.len() == b@.len(),
            i <= a@.len(),
            forall|j: int| 0 <= j < i ==> a@[j] == b@[j],
        decreases a@.len() - i,
    {
        if a[i] != b[i] {
            return false;
        }
        i = i + 1;
    }
    assert(a@ =~= b@);
    true
}

fn words_byte_length(words: &Vec<Vec<u8>>) -> (length: u128)
    requires
        words@.len() <= 100,
    ensures
        length == total_len(deep(words@)),
{
    let mut length: u128 = 0;
    let mut i: usize = 0;
    while i < words.len()
        invariant
            i <= words@.len(),
            words@.len() <= 100,
            length == total_len(deep(words@).take(i as int)),
            length <= i * (usize::MAX as nat),
        decreases words@.len() - i,
    {
        proof {
            assert(deep(words@).take(i + 1).drop_last() =~= deep(words@).take(i as int));
            assert(i * (usize::MAX as nat) + usize::MAX as nat == (i + 1) * (usize::MAX as nat)) by (nonlinear_arith);
            assert((i + 1) * (usize::MAX as nat) <= 100 * (usize::MAX as nat)) by (nonlinear_arith)
                requires
                    i + 1 <= 100,
            ;
        }
        length = length + words[i].len() as u128;
        i = i + 1;
    }
    assert(deep(words@).take(words@.len() as int) =~= deep(words@));
    length
}

/// The bases are, in order, the words of ranked replacements taken at
/// increasing places of a list sorted by the ranking key (total distance,
/// positions, neighbor ranks, words)
pub open spec fn follows_ranking(bases: Seq<BasePlan>, ranked: Seq<RankedBase>, places: Seq<int>) -> bool {
    &&& places.len() == bases.len()
    &&& forall|i: int|
        0 <= i < bases.len() ==> 0 <= #[trigger] places[i] < ranked.len() && deep(bases[i].words@) == deep(
            ranked[places[i]].words@,
        )
    &&& forall|i: int, j: int| 0 <= i < j < places.len() ==> #[trigger] places[i] < #[trigger] places[j]
    &&& forall|a: int, b: int| 0 <= a < b < ranked.len() ==> !base_key_lt(#[trigger] ranked[b], #[trigger] ranked[a])
}

/// The bases follow a ranking of sound replacements of the written words
pub open spec fn in_ranking_order(
    written: Seq<Seq<u8>>,
    table: Seq<Vec<Neighbor>>,
    k: nat,
    bases: Seq<BasePlan>,
) -> bool {
    exists|ranked: Seq<RankedBase>, places: Seq<int>|
        #[trigger] follows_ranking(bases, ranked, places) && forall|j: int|
            0 <= j < ranked.len() ==> ranked_sound(written, table, k, #[trigger] ranked[j])
}

/// Some recorded multiset is the multiset of these words
pub open spec fn multiset_planned(seen: Seq<MultisetKey>, words: Seq<Seq<u8>>) -> bool {
    exists|s: int|
        0 <= s < seen.len() && deep((#[trigger] seen[s]).keys@) == distinct_words(words) && seen[s].counts@ == word_counts(
            words,
        )
}

proof fn lemma_planned_kept(before: Seq<MultisetKey>, after: Seq<MultisetKey>, words: Seq<Seq<u8>>)
    requires
        multiset_planned(before, words),
        after.len() >= before.len(),
        forall|i: int| 0 <= i < before.len() ==> #[trigger] after[i] == before[i],
    ensures
        multiset_planned(after, words),
{
    let s = choose|s: int|
        0 <= s < before.len() && deep((#[trigger] before[s]).keys@) == distinct_words(words) && before[s].counts@ == word_counts(
            words,
        );
    assert(after[s] == before[s]);
}

/// Base plans for the written words with `replacements` words replaced by
/// neighbors, in ranking order, skipping lists longer than the passphrase
/// limit and lists whose multiset was already planned
#[verifier::rlimit(100)]
pub fn ranked_bases(
    written: &Vec<Vec<u8>>,
    table: &Vec<Vec<Neighbor>>,
    replacements: usize,
    settings: &RecoverySettings,
    seen: &mut Vec<MultisetKey>,
) -> (result: Result<Vec<BasePlan>, RecoverError>)
    requires
        table@.len() == written@.len(),
        letter_words(deep(written@)),
        forall|p: int, r: int|
            0 <= p < table@.len() && 0 <= r < table@[p]@.len() ==> is_letter_token(#[trigger] table@[p]@[r].word@),
    ensures
        match result {
            Ok(bases) => {
                &&& forall|i: int| 0 <= i < bases@.len() ==> base_plan_valid(#[trigger] bases@[i], settings.order)
                &&& forall|i: int|
                    0 <= i < bases@.len() ==> replacement_of(
                        deep(written@),
                        table@,
                        replacements as nat,
                        deep(#[trigger] bases@[i].words@),
                    )
                &&& forall|i: int|
                    0 <= i < bases@.len() ==> total_len(deep(#[trigger] bases@[i].words@))
                        <= settings.max_passphrase_bytes
                &&& final(seen)@.len() == old(seen)@.len() + bases@.len()
                &&& forall|i: int| 0 <= i < old(seen)@.len() ==> #[trigger] final(seen)@[i] == old(seen)@[i]
                &&& forall|i: int|
                    0 <= i < bases@.len() ==> deep(#[trigger] final(seen)@[old(seen)@.len() + i].keys@) == deep(
                        bases@[i].keys@,
                    ) && final(seen)@[old(seen)@.len() + i].counts@ == bases@[i].counts@
                &&& forall|a: int, b: int|
                    0 <= a < b < final(seen)@.len() && b >= old(seen)@.len() ==> !same_multiset(
                        #[trigger] final(seen)@[a],
                        #[trigger] final(seen)@[b],
                    )
                &&& forall|p: Seq<usize>, r: Seq<usize>|
                    valid_selection(written@.len() as nat, table@, p, r) && p.len() == replacements && total_len(
                        #[trigger] replaced(deep(written@), table@, p, r),
                    ) <= settings.max_passphrase_bytes ==> multiset_planned(
                        final(seen)@,
                        replaced(deep(written@), table@, p, r),
                    )
                &&& in_ranking_order(deep(written@), table@, replacements as nat, bases@)
            },
            Err(error) => error == RecoverError::CountOverflow,
        },
        settings.order == OrderMode::Written || crate::combinatorics::spec_factorial(written@.len() as nat)
            <= u128::MAX ==> result is Ok,
{
    let mut found: Vec<RankedBase> = Vec::new();
    let mut positions: Vec<usize> = Vec::new();
    let mut ranks: Vec<usize> = Vec::new();
    choose_replacement_positions(written, table, replacements, 0, &mut positions, &mut ranks, &mut found);
    let ghost listed = found@;
    let ranked = sort_ranked(found);
    proof {
        assert forall|j: int| 0 <= j < ranked@.len() implies (#[trigger] ranked@[j]).words@.len() == written@.len() by {
            let f = choose|f: int| 0 <= f < listed.len() && listed[f] == ranked@[j];
            assert(ranked_sound(deep(written@), table@, replacements as nat, listed[f]));
            lemma_replaced_len(deep(written@), table@, listed[f].positions@, listed[f].neighbor_ranks@);
        }
    }
    let mut bases: Vec<BasePlan> = Vec::new();
    let ghost mut places: Seq<int> = Seq::empty();
    let mut i: usize = 0;
    while i < ranked.len()
        invariant
            i <= ranked@.len(),
            follows_ranking(bases@, ranked@, places),
            forall|k: int| 0 <= k < places.len() ==> #[trigger] places[k] < i,
            table@.len() == written@.len(),
            letter_words(deep(written@)),
            forall|p: int, r: int|
                0 <= p < table@.len() && 0 <= r < table@[p]@.len() ==> is_letter_token(#[trigger] table@[p]@[r].word@),
            forall|j: int|
                0 <= j < ranked@.len() ==> ranked_sound(deep(written@), table@, replacements as nat, #[trigger] ranked@[j]),
            forall|j: int| 0 <= j < bases@.len() ==> base_plan_valid(#[trigger] bases@[j], settings.order),
            forall|j: int|
                0 <= j < bases@.len() ==> replacement_of(
                    deep(written@),
                    table@,
                    replacements as nat,
                    deep(#[trigger] bases@[j].words@),
                ),
            forall|j: int|
                0 <= j < bases@.len() ==> total_len(deep(#[trigger] bases@[j].words@)) <= settings.max_passphrase_bytes,
            seen@.len() == old(seen)@.len() + bases@.len(),
            forall|j: int| 0 <= j < old(seen)@.len() ==> #[trigger] seen@[j] == old(seen)@[j],
            forall|j: int|
                0 <= j < bases@.len() ==> deep(#[trigger] seen@[old(seen)@.len() + j].keys@) == deep(bases@[j].keys@)
                    && seen@[old(seen)@.len() + j].counts@ == bases@[j].counts@,
            forall|a: int, b: int|
                0 <= a < b < seen@.len() && b >= old(seen)@.len() ==> !same_multiset(
                    #[trigger] seen@[a],
                    #[trigger] seen@[b],
                ),
            forall|j: int|
                0 <= j < i && total_len(deep((#[trigger] ranked@[j]).words@)) <= settings.max_passphrase_bytes
                    ==> multiset_planned(seen@, deep(ranked@[j].words@)),
            forall|j: int| 0 <= j < ranked@.len() ==> (#[trigger] ranked@[j]).words@.len() == written@.len(),
        decreases ranked@.len() - i,
    {
        let base = &ranked[i];
        proof {
            let w = deep(base.words@);
            assert(replacement_of(deep(written@), table@, replacements as nat, w)) by {
                assert(valid_selection(deep(written@).len(), table@, base.positions@, base.neighbor_ranks@));
            }
            lemma_replaced_letters(deep(written@), table@, base.positions@, base.neighbor_ranks@);
        }
        let length = words_byte_length(&base.words);
        if length > settings.max_passphrase_bytes as u128 {
            i = i + 1;
            continue;
        }
        let (keys, counts) = distinct_with_counts(&base.words);
        let key = MultisetKey { keys, counts };
        if multiset_seen(seen, &key) {
            proof {
                let s = choose|s: int| 0 <= s < seen@.len() && same_multiset(#[trigger] seen@[s], key);
                assert(deep(seen@[s].keys@) == distinct_words(deep(ranked@[i as int].words@)));
            }
            i = i + 1;
            continue;
        }
        let total = match total_count(&key.counts) {
            Some(total) => total,
            None => return Err(RecoverError::CountOverflow),
        };
        if total != base.words.len() {
            return Err(RecoverError::CountOverflow);
        }
        let (local_permutations, lexical_count) = match settings.order {
            OrderMode::Written => {
                let mut only: Vec<Vec<Vec<u8>>> = Vec::new();
                only.push(copy_words(&base.words));
                proof {
                    assert(deep(only@[0]@) == deep(base.words@));
                    assert(no_repeats(deep_lists(only@)));
                    assert forall|k: int| 0 <= k < deep(base.words@).len() implies deep(base.words@).contains(
                        #[trigger] deep(base.words@)[k],
                    ) by {}
                }
                (only, 0u128)
            },
            OrderMode::Permuted => {
                let local = local_permutations(&base.words, settings.local_swap_radius);
                let count = match arrangement_count(&key.counts, total) {
                    Ok(count) => count,
                    Err(error) => return Err(error),
                };
                (local, count)
            },
        };
        let plan = BasePlan {
            words: copy_words(&base.words),
            keys: copy_words(&key.keys),
            counts: copy_indices(&key.counts),
            total,
            local_permutations,
            lexical_count,
        };
        let ghost old_seen = seen@;
        let ghost old_bases = bases@;
        seen.push(key);
        bases.push(plan);
        proof {
            assert forall|k: int| 0 <= k < old_bases.len() implies #[trigger] bases@[k] == old_bases[k] by {}
            assert(deep(bases@[bases@.len() - 1].words@) == deep(ranked@[i as int].words@));
            assert(replacement_of(deep(written@), table@, replacements as nat, deep(ranked@[i as int].words@)));
            assert(total_len(deep(ranked@[i as int].words@)) <= settings.max_passphrase_bytes);
            assert forall|j: int| 0 <= j < bases@.len() implies replacement_of(
                deep(written@),
                table@,
                replacements as nat,
                deep(#[trigger] bases@[j].words@),
            ) && total_len(deep(bases@[j].words@)) <= settings.max_passphrase_bytes by {
                if j < old_bases.len() {
                    assert(bases@[j] == old_bases[j]);
                }
            }
            places = places.push(i as int);
            assert forall|k: int| 0 <= k < bases@.len() implies 0 <= #[trigger] places[k] < ranked@.len() && deep(
                bases@[k].words@,
            ) == deep(ranked@[places[k]].words@) by {
                if k < old_bases.len() {
                    assert(bases@[k] == old_bases[k]);
                }
            }
            assert forall|a: int, b: int|
                0 <= a < b < seen@.len() && b >= old(seen)@.len() implies !same_multiset(
                    #[trigger] seen@[a],
                    #[trigger] seen@[b],
                ) by {
                if b < seen@.len() - 1 {
                    assert(seen@[a] == old_seen[a] && seen@[b] == old_seen[b]);
                } else {
                    assert(seen@[a] == old_seen[a]);
                }
            }
            assert forall|j: int|
                0 <= j < i + 1 && total_len(deep((#[trigger] ranked@[j]).words@)) <= settings.max_passphrase_bytes
                    implies multiset_planned(seen@, deep(ranked@[j].words@)) by {
                if j < i {
                    lemma_planned_kept(old_seen, seen@, deep(ranked@[j].words@));
                } else {
                    assert(seen@[seen@.len() - 1] == key);
                }
            }
        }
        i = i + 1;
    }
    proof {
        assert forall|p: Seq<usize>, r: Seq<usize>|
            valid_selection(written@.len() as nat, table@, p, r) && p.len() == replacements && total_len(
                #[trigger] replaced(deep(written@), table@, p, r),
            ) <= settings.max_passphrase_bytes implies multiset_planned(seen@, replaced(deep(written@), table@, p, r)) by {
            assert(p.take(0) =~= Seq::<usize>::empty());
            assert(r.take(0) =~= Seq::<usize>::empty());
            assert(continues_selection(
                written@.len() as nat,
                table@,
                Seq::empty(),
                Seq::empty(),
                replacements as nat,
                0,
                p,
                r,
            ));
            let f = choose|f: int| 0 <= f < listed.len() && (#[trigger] listed[f]).positions@ == p && listed[f].neighbor_ranks@ == r;
            assert(ranked@.contains(listed[f]));
            let j = choose|j: int| 0 <= j < ranked@.len() && ranked@[j] == listed[f];
            assert(ranked_sound(deep(written@), table@, replacements as nat, ranked@[j]));
        }
    }
    proof {
        assert forall|j: int| 0 <= j < bases@.len() implies replacement_of(
            deep(written@),
            table@,
            replacements as nat,
            deep(#[trigger] bases@[j].words@),
        ) && total_len(deep(bases@[j].words@)) <= settings.max_passphrase_bytes by {}
        assert(follows_ranking(bases@, ranked@, places));
        assert(forall|j: int|
            0 <= j < ranked@.len() ==> ranked_sound(deep(written@), table@, replacements as nat, #[trigger] ranked@[j]));
        assert(in_ranking_order(deep(written@), table@, replacements as nat, bases@));
    }
    Ok(bases)
}

proof fn lemma_replaced_letters(
    written: Seq<Seq<u8>>,
    table: Seq<Vec<Neighbor>>,
    positions: Seq<usize>,
    ranks: Seq<usize>,
)
    requires
        letter_words(written),
        table.len() == written.len(),
        valid_selection(written.len(), table, positions, ranks),
        forall|p: int, r: int|
            0 <= p < table.len() && 0 <= r < table[p]@.len() ==> is_letter_token(#[trigger] table[p]@[r].word@),
    ensures
        letter_words(replaced(written, table, positions, ranks)),
    decreases positions.len(),
{
    if positions.len() > 0 {
        let k = positions.len() - 1;
        assert(valid_selection(written.len(), table, positions.drop_last(), ranks.drop_last())) by {
            assert forall|i: int|
                0 <= i < positions.drop_last().len() implies #[trigger] positions.drop_last()[i] < written.len()
                    && ranks.drop_last()[i] < table[positions.drop_last()[i] as int]@.len() by {
                assert(positions.drop_last()[i] == positions[i]);
            }
            assert forall|i: int, j: int|
                0 <= i < j < positions.drop_last().len() implies #[trigger] positions.drop_last()[i]
                    < #[trigger] positions.drop_last()[j] by {
                assert(positions.drop_last()[i] == positions[i] && positions.drop_last()[j] == positions[j]);
            }
        }
        lemma_replaced_letters(written, table, positions.drop_last(), ranks.drop_last());
        lemma_replaced_len(written, table, positions.drop_last(), ranks.drop_last());
        assert(positions[k] < written.len());
        let p = positions[k] as int;
        let r = ranks[k] as int;
        assert(is_letter_token(table[p]@[r].word@));
    }
}

proof fn lemma_replaced_len(written: Seq<Seq<u8>>, table: Seq<Vec<Neighbor>>, positions: Seq<usize>, ranks: Seq<usize>)
    requires
        forall|i: int| 0 <= i < positions.len() ==> #[trigger] positions[i] < written.len(),
    ensures
        replaced(written, table, positions, ranks).len() == written.len(),
    decreases positions.len(),
{
    if positions.len() > 0 {
        assert forall|i: int| 0 <= i < positions.drop_last().len() implies #[trigger] positions.drop_last()[i] < written.len() by {
            assert(positions.drop_last()[i] == positions[i]);
        }
        lemma_replaced_len(written, table, positions.drop_last(), ranks.drop_last());
    }
}


/// Bases of one enabled phase and its exact candidate count
#[derive(Clone)]
pub struct PhasePlan {
    pub phase: SearchPhase,
    pub bases: Vec<BasePlan>,
    pub count: u128,
}


/// The distinct words of a valid base are letter tokens
pub proof fn lemma_keys_letters(b: BasePlan, order: OrderMode)
    requires
        base_plan_valid(b, order),
    ensures
        forall|k: int| 0 <= k < b.keys@.len() ==> is_letter_token(#[trigger] b.keys@[k]@),
{
    assert forall|k: int| 0 <= k < b.keys@.len() implies is_letter_token(#[trigger] b.keys@[k]@) by {
        assert(deep(b.keys@)[k] == b.keys@[k]@);
        lemma_distinct_contains(deep(b.words@), b.keys@[k]@);
        let j = choose|j: int| 0 <= j < deep(b.words@).len() && deep(b.words@)[j] == b.keys@[k]@;
        assert(is_letter_token(deep(b.words@)[j]));
    }
}

} // verus!
