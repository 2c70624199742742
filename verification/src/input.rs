//! Validation of secret inputs and the identifier of a recovery specification

use vstd::prelude::*;

use crate::bytes::{ascii_lower, is_ascii_letter, is_ascii_letter_byte, to_lower_byte};
use crate::crypto::{english_mnemonic_of, parse_english_mnemonic};
use crate::domain::{
    first_invalid_line, is_letter_string, lemma_first_invalid_line_zero, trim_of, trimmed, RecoveryRecipe, SecretMnemonic, TargetFingerprint, TokenSlot, VerificationTarget, WrittenWords,
};
use crate::digest::{hex_encode, hex_text, sha256, sha256_of};
use crate::error::RecoverError;
use crate::settings::{OrderMode, RecoverySettings, SpacingMode};
use crate::text::{ascii_string, copy_strings, lemma_utf8_empty, owned, str_bytes, utf8};
use vstd::utf8::encode_utf8;

verus! {

/// Validated secret inputs used to compile and execute a recovery plan
#[derive(Clone)]
pub struct RecoveryInputs {
    /// Secret BIP39 mnemonic
    pub mnemonic: SecretMnemonic,
    /// Normalized passphrase words in written order
    pub written_words: WrittenWords,
    /// Typed recipe used by the candidate planner
    pub recipe: RecoveryRecipe,
}

impl RecoveryInputs {
    /// The words and the recipe are valid
    pub open spec fn well_formed(&self) -> bool {
        self.written_words.well_formed() && self.recipe.well_formed()
    }
}

/// Every byte is an ASCII letter (an empty text qualifies)
pub open spec fn all_ascii_letters(bytes: Seq<u8>) -> bool {
    forall|i: int| 0 <= i < bytes.len() ==> is_ascii_letter(#[trigger] bytes[i])
}

/// ASCII lowercase of every byte
pub open spec fn lowercase_bytes(bytes: Seq<u8>) -> Seq<u8> {
    bytes.map_values(|b: u8| ascii_lower(b))
}

/// Lowercase a written word made only of ASCII letters
pub fn normalize_written_word(line: usize, value: &str) -> (result: Result<String, RecoverError>)
    ensures
        result is Ok <==> all_ascii_letters(encode_utf8(value@)),
        result matches Ok(word) ==> utf8(word) == lowercase_bytes(encode_utf8(value@)),
        result matches Err(error) ==> error == (RecoverError::InvalidWrittenWord { line }),
{
    let bytes = str_bytes(value);
    let mut lower: Vec<u8> = Vec::new();
    let mut i: usize = 0;
    while i < bytes.len()
        invariant
            bytes@ == encode_utf8(value@),
            i <= bytes@.len(),
            lower@ == lowercase_bytes(bytes@.take(i as int)),
            all_ascii_letters(bytes@.take(i as int)),
        decreases bytes@.len() - i,
    {
        if !is_ascii_letter_byte(bytes[i]) {
            proof {
                assert(!is_ascii_letter(bytes@[i as int]));
            }
            return Err(RecoverError::InvalidWrittenWord { line });
        }
        lower.push(to_lower_byte(bytes[i]));
        proof {
            assert(bytes@.take(i + 1) =~= bytes@.take(i as int).push(bytes@[i as int]));
            assert(lower@ =~= lowercase_bytes(bytes@.take(i + 1)));
        }
        i = i + 1;
    }
    proof {
        assert(bytes@.take(bytes@.len() as int) =~= bytes@);
        assert forall|k: int| 0 <= k < lower@.len() implies #[trigger] lower@[k] < 128 by {
            assert(is_ascii_letter(bytes@[k]));
        }
    }
    Ok(ascii_string(&lower))
}

/// Position (1-based) of the first entry whose word has a byte that is not an
/// ASCII letter, or 0
pub open spec fn first_rejected_word(words: Seq<(usize, String)>) -> int
    decreases words.len(),
{
    if words.len() == 0 {
        0
    } else if first_rejected_word(words.drop_last()) > 0 {
        first_rejected_word(words.drop_last())
    } else if !all_ascii_letters(utf8(words.last().1)) {
        words.len() as int
    } else {
        0
    }
}

proof fn lemma_first_rejected_extends(words: Seq<(usize, String)>, k: int)
    requires
        0 < k <= words.len(),
        first_rejected_word(words.take(k)) == k,
    ensures
        first_rejected_word(words) == k,
    decreases words.len(),
{
    if k < words.len() {
        assert(words.drop_last().take(k) =~= words.take(k));
        lemma_first_rejected_extends(words.drop_last(), k);
    } else {
        assert(words.take(k) =~= words);
    }
}

/// Lowercase every numbered written word, stopping at the first that is
/// rejected
fn normalize_words(words: &Vec<(usize, String)>) -> (result: Result<Vec<String>, RecoverError>)
    ensures
        match result {
            Ok(normalized) => first_rejected_word(words@) == 0 && normalized@.len() == words@.len() && forall|i: int|
                0 <= i < words@.len() ==> utf8(#[trigger] normalized@[i]) == lowercase_bytes(utf8(words@[i].1)),
            Err(error) => 0 < first_rejected_word(words@) <= words@.len() && error == (RecoverError::InvalidWrittenWord {
                line: words@[first_rejected_word(words@) - 1].0,
            }),
        },
{
    let mut normalized: Vec<String> = Vec::new();
    let mut i: usize = 0;
    while i < words.len()
        invariant
            i <= words@.len(),
            first_rejected_word(words@.take(i as int)) == 0,
            normalized@.len() == i,
            forall|j: int| 0 <= j < i ==> utf8(#[trigger] normalized@[j]) == lowercase_bytes(utf8(words@[j].1)),
        decreases words@.len() - i,
    {
        assert(words@.take(i + 1).drop_last() =~= words@.take(i as int));
        let (line, word) = (words[i].0, &words[i].1);
        match normalize_written_word(line, word.as_str()) {
            Ok(lower) => normalized.push(lower),
            Err(error) => {
                proof {
                    lemma_first_rejected_extends(words@, i as int + 1);
                }
                return Err(error);
            },
        }
        i = i + 1;
    }
    assert(words@.take(words@.len() as int) =~= words@);
    Ok(normalized)
}

/// Inputs built from a parsed mnemonic phrase and normalized written words
pub open spec fn inputs_from(inputs: RecoveryInputs, phrase: Seq<char>, words: Seq<(usize, String)>) -> bool {
    &&& inputs.well_formed()
    &&& inputs.mnemonic.view_text() == phrase
    &&& inputs.written_words.view().len() == words.len()
    &&& forall|i: int|
        0 <= i < words.len() ==> utf8(#[trigger] inputs.written_words.view()[i]) == lowercase_bytes(utf8(words[i].1))
    &&& inputs.recipe.view().len() == words.len()
    &&& forall|i: int|
        0 <= i < words.len() ==> #[trigger] inputs.recipe.view()[i].alternatives_view() == seq![
            inputs.written_words.view()[i],
        ] && !inputs.recipe.view()[i].optional_view()
}

/// Validate a mnemonic text and numbered written words
///
/// The mnemonic is trimmed and parsed as English BIP39; every word must be
/// ASCII letters, and is lowercased; the recipe has one required slot per
/// word.
pub fn parse_inputs(mnemonic_text: &str, words: &Vec<(usize, String)>) -> (result: Result<
    RecoveryInputs,
    RecoverError,
>)
    ensures
        match english_mnemonic_of(trim_of(mnemonic_text@)) {
            Err(message) => result matches Err(RecoverError::InvalidMnemonic(shown)) && shown@ == message,
            Ok(phrase) => if first_rejected_word(words@) > 0 {
                first_rejected_word(words@) <= words@.len() && result == Err::<RecoveryInputs, RecoverError>(
                    RecoverError::InvalidWrittenWord { line: words@[first_rejected_word(words@) - 1].0 },
                )
            } else if words@.len() == 0 {
                result == Err::<RecoveryInputs, RecoverError>(RecoverError::NoWrittenWords)
            } else {
                &&& result is Ok <==> forall|i: int| 0 <= i < words@.len() ==> (#[trigger] words@[i]).1@.len() > 0
                &&& result matches Ok(inputs) ==> inputs_from(inputs, phrase, words@)
                &&& result matches Err(error) ==> error is InvalidWrittenWord
            },
        },
{
    let phrase = match parse_english_mnemonic(trimmed(mnemonic_text)) {
        Ok(phrase) => phrase,
        Err(message) => return Err(RecoverError::InvalidMnemonic(message)),
    };
    let normalized = match normalize_words(words) {
        Ok(normalized) => normalized,
        Err(error) => return Err(error),
    };
    let ghost lowered = normalized@;
    let written_words = match WrittenWords::new(normalized) {
        Ok(written_words) => written_words,
        Err(error) => return Err(error),
    };
    let line = written_words.first_invalid();
    if line != 0 {
        proof {
            lemma_lowered_letters(words@, lowered);
            lemma_first_invalid_line_zero(lowered);
        }
        return Err(RecoverError::InvalidWrittenWord { line });
    }
    proof {
        lemma_lowered_letters(words@, lowered);
        written_words.lemma_well_formed();
    }
    let recipe = RecoveryRecipe::from_written_words(&written_words);
    Ok(RecoveryInputs { mnemonic: SecretMnemonic::new(phrase), written_words, recipe })
}

proof fn lemma_lowered_letters(words: Seq<(usize, String)>, lowered: Seq<String>)
    requires
        first_rejected_word(words) == 0,
        lowered.len() == words.len(),
        forall|i: int| 0 <= i < words.len() ==> utf8(#[trigger] lowered[i]) == lowercase_bytes(utf8(words[i].1)),
    ensures
        (forall|i: int| 0 <= i < lowered.len() ==> #[trigger] is_letter_string(lowered[i])) <==> (forall|i: int|
            0 <= i < words.len() ==> (#[trigger] words[i]).1@.len() > 0),
    decreases words.len(),
{
    if words.len() > 0 {
        lemma_lowered_letters(words.drop_last(), lowered.drop_last());
        let n = words.len() - 1;
        let w = utf8(words[n].1);
        assert(all_ascii_letters(w));
        lemma_utf8_empty(words[n].1@);
        if (forall|i: int| 0 <= i < lowered.len() ==> #[trigger] is_letter_string(lowered[i])) {
            assert(is_letter_string(lowered[n]));
            assert(utf8(lowered[n]).len() == w.len());
            if words[n].1@.len() == 0 {
                assert(words[n].1@ =~= Seq::<char>::empty());
            }
            assert forall|i: int| 0 <= i < words.len() implies (#[trigger] words[i]).1@.len() > 0 by {
                if i < n {
                    assert(is_letter_string(lowered.drop_last()[i]));
                }
            }
        }
        if (forall|i: int| 0 <= i < words.len() ==> (#[trigger] words[i]).1@.len() > 0) {
            assert forall|i: int| 0 <= i < lowered.len() implies #[trigger] is_letter_string(lowered[i]) by {
                if i < n {
                    assert(words.drop_last()[i] == words[i]);
                    assert(is_letter_string(lowered.drop_last()[i]));
                } else {
                    assert(words[n].1@.len() > 0);
                    assert(w.len() > 0);
                    assert forall|k: int| 0 <= k < w.len() implies is_ascii_letter(
                        #[trigger] utf8(lowered[n])[k],
                    ) by {
                        assert(is_ascii_letter(w[k]));
                    }
                }
            }
        }
    }
}

/// A recipe file: its format version and its slots, each a list of ranked
/// alternatives and whether the slot may be omitted
pub struct RecipeDocument {
    pub version: u32,
    pub slots: Vec<(Vec<String>, bool)>,
}

/// Position (1-based) of the first slot that `TokenSlot::new` refuses, or 0
pub open spec fn first_invalid_slot(slots: Seq<(Vec<String>, bool)>) -> int
    decreases slots.len(),
{
    if slots.len() == 0 {
        0
    } else if first_invalid_slot(slots.drop_last()) > 0 {
        first_invalid_slot(slots.drop_last())
    } else if !(slots.last().0@.len() > 0 && first_invalid_line(slots.last().0@) == 0) {
        slots.len() as int
    } else {
        0
    }
}

proof fn lemma_first_invalid_slot_extends(slots: Seq<(Vec<String>, bool)>, k: int)
    requires
        0 < k <= slots.len(),
        first_invalid_slot(slots.take(k)) == k,
    ensures
        first_invalid_slot(slots) == k,
    decreases slots.len(),
{
    if k < slots.len() {
        assert(slots.drop_last().take(k) =~= slots.take(k));
        lemma_first_invalid_slot_extends(slots.drop_last(), k);
    } else {
        assert(slots.take(k) =~= slots);
    }
}

/// Message of a recipe file of another format version
fn unsupported_version_message(version: u32) -> (message: String)
    ensures
        message@ == "unsupported recipe version "@ + crate::phase::decimal(version as nat),
{
    let mut message = String::from_str("unsupported recipe version ");
    let digits = crate::phase::decimal_text(version as usize);
    message.append(digits.as_str());
    message
}

impl RecipeDocument {
    /// The recipe of a version 1 document
    ///
    /// Fails with `InvalidSetting` on another version, on a slot without
    /// alternatives or with an alternative that is not ASCII letters, and with
    /// `NoWrittenWords` when there is no slot.
    pub fn into_recipe(self) -> (result: Result<RecoveryRecipe, RecoverError>)
        ensures
            result is Ok <==> (self.version == 1 && first_invalid_slot(self.slots@) == 0 && self.slots@.len() > 0),
            result matches Ok(recipe) ==> recipe.well_formed() && recipe.view().len() == self.slots@.len() && forall|i: int|
                0 <= i < self.slots@.len() ==> (#[trigger] recipe.view()[i]).alternatives_view() == self.slots@[i].0@
                    && recipe.view()[i].optional_view() == self.slots@[i].1,
            self.version != 1 ==> (result matches Err(RecoverError::InvalidSetting(message)) && message@
                == "unsupported recipe version "@ + crate::phase::decimal(self.version as nat)),
            result matches Err(error) ==> if self.version != 1 || first_invalid_slot(self.slots@) > 0 {
                error is InvalidSetting
            } else {
                error == RecoverError::NoWrittenWords
            },
    {
        if self.version != 1 {
            return Err(RecoverError::InvalidSetting(unsupported_version_message(self.version)));
        }
        let ghost documents = self.slots@;
        let mut slots: Vec<TokenSlot> = Vec::new();
        let n = self.slots.len();
        let mut i: usize = 0;
        while i < n
            invariant
                self.version == 1,
                n == documents.len(),
                documents == self.slots@,
                i <= n,
                first_invalid_slot(documents.take(i as int)) == 0,
                slots@.len() == i,
                forall|j: int| 0 <= j < i ==> (#[trigger] slots@[j]).well_formed() && slots@[j].alternatives_view()
                    == documents[j].0@ && slots@[j].optional_view() == documents[j].1,
            decreases n - i,
        {
            assert(documents.take(i + 1).drop_last() =~= documents.take(i as int));
            let alternatives = copy_strings(self.slots[i].0.as_slice());
            match TokenSlot::new(alternatives, self.slots[i].1) {
                Ok(slot) => slots.push(slot),
                Err(error) => {
                    proof {
                        lemma_first_invalid_slot_extends(documents, i as int + 1);
                    }
                    return Err(error);
                },
            }
            i = i + 1;
        }
        assert(documents.take(n as int) =~= documents);
        RecoveryRecipe::new(slots)
    }
}

/// Inputs from a mnemonic text and an advanced recipe: the written words
/// are the first alternative of every slot
pub fn inputs_with_recipe(mnemonic_text: &str, recipe: RecoveryRecipe) -> (result: Result<RecoveryInputs, RecoverError>)
    requires
        recipe.well_formed(),
    ensures
        match english_mnemonic_of(trim_of(mnemonic_text@)) {
            Err(message) => result matches Err(RecoverError::InvalidMnemonic(shown)) && shown@ == message,
            Ok(phrase) => result matches Ok(inputs) && inputs.well_formed() && inputs.mnemonic.view_text() == phrase
                && inputs.recipe == recipe && inputs.written_words.view().len() == recipe.view().len() && forall|i: int|
                0 <= i < recipe.view().len() ==> #[trigger] inputs.written_words.view()[i]
                    == recipe.view()[i].alternatives_view()[0],
        },
{
    let phrase = match parse_english_mnemonic(trimmed(mnemonic_text)) {
        Ok(phrase) => phrase,
        Err(message) => return Err(RecoverError::InvalidMnemonic(message)),
    };
    let slots = recipe.slots();
    let mut primary: Vec<String> = Vec::new();
    let mut i: usize = 0;
    while i < slots.len()
        invariant
            slots@ == recipe.view(),
            recipe.well_formed(),
            i <= slots@.len(),
            primary@.len() == i,
            forall|j: int| 0 <= j < i ==> #[trigger] primary@[j] == slots@[j].alternatives_view()[0],
        decreases slots@.len() - i,
    {
        assert(slots@[i as int].well_formed());
        primary.push(slots[i].alternatives()[0].clone());
        i = i + 1;
    }
    let ghost words = primary@;
    proof {
        assert forall|j: int| 0 <= j < words.len() implies #[trigger] is_letter_string(words[j]) by {
            assert(slots@[j].well_formed());
        }
        lemma_first_invalid_line_zero(words);
    }
    let written_words = match WrittenWords::new(primary) {
        Ok(written_words) => written_words,
        Err(error) => return Err(error),
    };
    Ok(RecoveryInputs { mnemonic: SecretMnemonic::new(phrase), written_words, recipe })
}

/// Bytes hashed first into a recovery specification identifier:
/// "recoverme-spec-v4" and a zero byte
pub open spec fn spec_hash_prefix() -> Seq<u8> {
    seq![114u8, 101, 99, 111, 118, 101, 114, 109, 101, 45, 115, 112, 101, 99, 45, 118, 52, 0]
}

/// Little-endian bytes of a value, `count` of them
pub open spec fn le_bytes(value: nat, count: nat) -> Seq<u8>
    decreases count,
{
    if count == 0 {
        Seq::empty()
    } else {
        seq![(value % 256) as u8] + le_bytes(value / 256, (count - 1) as nat)
    }
}

/// Native little-endian bytes of a `usize`
pub open spec fn usize_le_bytes(value: usize) -> Seq<u8> {
    le_bytes(value as nat, (usize::BITS / 8) as nat)
}

/// One byte for a flag: 1 when set
pub open spec fn flag_byte(flag: bool) -> u8 {
    if flag {
        1
    } else {
        0
    }
}

/// Each alternative's bytes followed by a zero byte
pub open spec fn alternatives_bytes(alternatives: Seq<String>) -> Seq<u8>
    decreases alternatives.len(),
{
    if alternatives.len() == 0 {
        Seq::empty()
    } else {
        alternatives_bytes(alternatives.drop_last()) + utf8(alternatives.last()) + seq![0u8]
    }
}

/// A slot's bytes: its optional flag, its alternatives, and 0xff
pub open spec fn slot_bytes(slot: TokenSlot) -> Seq<u8> {
    seq![flag_byte(slot.optional_view())] + alternatives_bytes(slot.alternatives_view()) + seq![0xffu8]
}

/// The bytes of every slot in order
pub open spec fn slots_bytes(slots: Seq<TokenSlot>) -> Seq<u8>
    decreases slots.len(),
{
    if slots.len() == 0 {
        Seq::empty()
    } else {
        slots_bytes(slots.drop_last()) + slot_bytes(slots.last())
    }
}

/// The target's bytes: its fingerprint, then 1, the master public key and
/// the chain code for a master-key target, or 0
pub open spec fn target_bytes(target: VerificationTarget) -> Seq<u8> {
    match target {
        VerificationTarget::Fingerprint(fingerprint) => fingerprint.view_bytes() + seq![0u8],
        VerificationTarget::MasterXpub { fingerprint, master_xpub } => fingerprint.view_bytes() + seq![1u8]
            + master_xpub.public_key_view() + master_xpub.chain_code_view(),
    }
}

/// Number of a token order in the identifier
pub open spec fn order_code(order: OrderMode) -> u8 {
    match order {
        OrderMode::Written => 0,
        OrderMode::Permuted => 1,
    }
}

/// Number of a spacing strategy in the identifier
pub open spec fn spacing_code(spacing: SpacingMode) -> u8 {
    match spacing {
        SpacingMode::Concatenated => 0,
        SpacingMode::Between => 1,
        SpacingMode::Both => 2,
        SpacingMode::Coldcard => 3,
    }
}

/// The settings' bytes, in declaration order
pub open spec fn settings_bytes(settings: RecoverySettings) -> Seq<u8> {
    usize_le_bytes(settings.neighbors_per_word) + usize_le_bytes(settings.max_replacements) + usize_le_bytes(
        settings.local_swap_radius,
    ) + usize_le_bytes(settings.max_passphrase_bytes) + seq![
        flag_byte(settings.lowercase_already_tried),
        order_code(settings.order),
        spacing_code(settings.spacing),
        flag_byte(settings.concatenated_already_tried),
    ]
}

/// Everything that a recovery specification identifier hashes
pub open spec fn spec_hash_message(
    mnemonic: Seq<char>,
    slots: Seq<TokenSlot>,
    target: VerificationTarget,
    settings: RecoverySettings,
) -> Seq<u8> {
    spec_hash_prefix() + encode_utf8(mnemonic) + seq![0u8] + slots_bytes(slots) + target_bytes(target)
        + settings_bytes(settings)
}

fn push_usize_le(message: &mut Vec<u8>, value: usize)
    ensures
        final(message)@ == old(message)@ + usize_le_bytes(value),
{
    let count: u32 = usize::BITS / 8;
    let ghost start = message@;
    let mut rest: usize = value;
    let mut k: u32 = 0;
    while k < count
        invariant
            count == usize::BITS / 8,
            k <= count,
            message@ + le_bytes(rest as nat, (count - k) as nat) == start + le_bytes(value as nat, count as nat),
        decreases count - k,
    {
        let ghost before = message@;
        assert(le_bytes(rest as nat, (count - k) as nat) == seq![(rest % 256) as u8] + le_bytes(
            (rest / 256) as nat,
            (count - k - 1) as nat,
        ));
        message.push((rest % 256) as u8);
        rest = rest / 256;
        k = k + 1;
        assert(before + (seq![(message@.last())] + le_bytes(rest as nat, (count - k) as nat)) =~= message@ + le_bytes(
            rest as nat,
            (count - k) as nat,
        ));
    }
    assert(message@ + le_bytes(rest as nat, 0) =~= message@);
}

pub(crate) fn push_bytes(message: &mut Vec<u8>, bytes: &[u8])
    ensures
        final(message)@ == old(message)@ + bytes@,
{
    let ghost start = message@;
    let mut i: usize = 0;
    while i < bytes.len()
        invariant
            i <= bytes@.len(),
            message@ == start + bytes@.take(i as int),
        decreases bytes@.len() - i,
    {
        message.push(bytes[i]);
        i = i + 1;
        assert(message@ =~= start + bytes@.take(i as int));
    }
    assert(bytes@.take(bytes@.len() as int) =~= bytes@);
}

fn flag(value: bool) -> (byte: u8)
    ensures
        byte == flag_byte(value),
{
    if value {
        1
    } else {
        0
    }
}

fn push_alternatives(message: &mut Vec<u8>, alternatives: &[String])
    ensures
        final(message)@ == old(message)@ + alternatives_bytes(alternatives@),
{
    let ghost start = message@;
    let mut j: usize = 0;
    while j < alternatives.len()
        invariant
            j <= alternatives@.len(),
            message@ == start + alternatives_bytes(alternatives@.take(j as int)),
        decreases alternatives@.len() - j,
    {
        assert(alternatives@.take(j + 1).drop_last() =~= alternatives@.take(j as int));
        push_bytes(message, alternatives[j].as_str().as_bytes());
        message.push(0u8);
        j = j + 1;
        assert(message@ =~= start + alternatives_bytes(alternatives@.take(j as int)));
    }
    assert(alternatives@.take(alternatives@.len() as int) =~= alternatives@);
}

fn push_slots(message: &mut Vec<u8>, slots: &[TokenSlot])
    ensures
        final(message)@ == old(message)@ + slots_bytes(slots@),
{
    let ghost start = message@;
    let mut i: usize = 0;
    while i < slots.len()
        invariant
            i <= slots@.len(),
            message@ == start + slots_bytes(slots@.take(i as int)),
        decreases slots@.len() - i,
    {
        assert(slots@.take(i + 1).drop_last() =~= slots@.take(i as int));
        let ghost at_slot = message@;
        message.push(flag(slots[i].is_optional()));
        push_alternatives(message, slots[i].alternatives());
        message.push(0xffu8);
        i = i + 1;
        proof {
            assert(message@ =~= at_slot + slot_bytes(slots@[i - 1]));
            assert(message@ =~= start + slots_bytes(slots@.take(i as int)));
        }
    }
    assert(slots@.take(slots@.len() as int) =~= slots@);
}

fn push_target(message: &mut Vec<u8>, target: &VerificationTarget)
    ensures
        final(message)@ == old(message)@ + target_bytes(*target),
{
    let ghost start = message@;
    let fingerprint = target.fingerprint().bytes();
    push_bytes(message, fingerprint.as_slice());
    match target.master_xpub() {
        Some(master_xpub) => {
            message.push(1u8);
            let public_key = master_xpub.public_key();
            push_bytes(message, public_key.as_slice());
            let chain_code = master_xpub.chain_code();
            push_bytes(message, chain_code.as_slice());
        },
        None => {
            message.push(0u8);
        },
    }
    assert(message@ =~= start + target_bytes(*target));
}

fn push_settings(message: &mut Vec<u8>, settings: &RecoverySettings)
    ensures
        final(message)@ == old(message)@ + settings_bytes(*settings),
{
    let ghost start = message@;
    push_usize_le(message, settings.neighbors_per_word);
    push_usize_le(message, settings.max_replacements);
    push_usize_le(message, settings.local_swap_radius);
    push_usize_le(message, settings.max_passphrase_bytes);
    message.push(flag(settings.lowercase_already_tried));
    let order: u8 = match settings.order {
        OrderMode::Written => 0,
        OrderMode::Permuted => 1,
    };
    message.push(order);
    let spacing: u8 = match settings.spacing {
        SpacingMode::Concatenated => 0,
        SpacingMode::Between => 1,
        SpacingMode::Both => 2,
        SpacingMode::Coldcard => 3,
    };
    message.push(spacing);
    message.push(flag(settings.concatenated_already_tried));
    assert(message@ =~= start + settings_bytes(*settings));
}

/// Compute the identifier stored for secret inputs, target, and immutable
/// settings: the lowercase hexadecimal SHA-256 of the specification's bytes
pub fn recovery_spec_hash_for_target(
    inputs: &RecoveryInputs,
    target: &VerificationTarget,
    settings: &RecoverySettings,
) -> (hash: String)
    ensures
        hash@ == hex_text(
            sha256_of(spec_hash_message(inputs.mnemonic.view_text(), inputs.recipe.view(), *target, *settings)),
        ),
{
    let mut message: Vec<u8> = Vec::new();
    let prefix: [u8; 18] = [114u8, 101, 99, 111, 118, 101, 114, 109, 101, 45, 115, 112, 101, 99, 45, 118, 52, 0];
    push_bytes(&mut message, prefix.as_slice());
    proof {
        assert(prefix@ =~= spec_hash_prefix());
    }
    push_bytes(&mut message, inputs.mnemonic.expose().as_bytes());
    message.push(0u8);
    push_slots(&mut message, inputs.recipe.slots());
    push_target(&mut message, target);
    push_settings(&mut message, settings);
    proof {
        assert(message@ =~= spec_hash_message(inputs.mnemonic.view_text(), inputs.recipe.view(), *target, *settings));
    }
    let digest = sha256(message.as_slice());
    hex_encode(digest.as_slice())
}

/// Identifier of a recovery specification whose target is a fingerprint
pub fn recovery_spec_hash(inputs: &RecoveryInputs, fingerprint: TargetFingerprint, settings: &RecoverySettings) -> (hash:
    String)
    ensures
        hash@ == hex_text(
            sha256_of(
                spec_hash_message(
                    inputs.mnemonic.view_text(),
                    inputs.recipe.view(),
                    VerificationTarget::Fingerprint(fingerprint),
                    *settings,
                ),
            ),
        ),
{
    recovery_spec_hash_for_target(inputs, &VerificationTarget::Fingerprint(fingerprint), settings)
}

/// A line without the carriage return of a `\r\n` ending
pub open spec fn without_carriage_return(line: Seq<char>) -> Seq<char> {
    if line.len() > 0 && line.last() == '\r' {
        line.drop_last()
    } else {
        line
    }
}

/// Lines of the rest of a text, the current line having begun with `current`:
/// each `\n` ends a line (and a `\r` just before it), and a last line that is
/// not empty needs no `\n`
pub open spec fn lines_from(text: Seq<char>, current: Seq<char>) -> Seq<Seq<char>>
    decreases text.len(),
{
    if text.len() == 0 {
        if current.len() > 0 {
            seq![current]
        } else {
            Seq::empty()
        }
    } else if text[0] == '\n' {
        seq![without_carriage_return(current)] + lines_from(text.drop_first(), Seq::empty())
    } else {
        lines_from(text.drop_first(), current.push(text[0]))
    }
}

/// Lines of a text
pub open spec fn lines_of(text: Seq<char>) -> Seq<Seq<char>> {
    lines_from(text, Seq::empty())
}

/// Runs of non-whitespace characters of the rest of a text, the current run
/// having begun with `current`
pub open spec fn words_from(text: Seq<char>, current: Seq<char>) -> Seq<Seq<char>>
    decreases text.len(),
{
    if text.len() == 0 {
        if current.len() > 0 {
            seq![current]
        } else {
            Seq::empty()
        }
    } else if crate::domain::is_white_space(text[0]) {
        (if current.len() > 0 {
            seq![current]
        } else {
            Seq::empty()
        }) + words_from(text.drop_first(), Seq::empty())
    } else {
        words_from(text.drop_first(), current.push(text[0]))
    }
}

/// Whitespace-separated words of a text
pub open spec fn whitespace_words_of(text: Seq<char>) -> Seq<Seq<char>> {
    words_from(text, Seq::empty())
}

/// Split a text into its lines
///
/// Calls `str::lines`, which ends a line at each `\n` or `\r\n` and gives no
/// empty line for a final line ending.
#[verifier::external_body]
pub(crate) fn text_lines(text: &str) -> (lines: Vec<String>)
    ensures
        lines@.map_values(|line: String| line@) == lines_of(text@),
{
    text.lines().map(|line| line.to_owned()).collect()
}

/// Split a text at whitespace
///
/// Calls `str::split_whitespace`, which gives the non-empty runs of characters
/// without the Unicode `White_Space` property.
#[verifier::external_body]
fn text_words(text: &str) -> (words: Vec<String>)
    ensures
        words@.map_values(|word: String| word@) == whitespace_words_of(text@),
{
    text.split_whitespace().map(|word| word.to_owned()).collect()
}

/// View of numbered words
pub open spec fn numbered_view(words: Seq<(usize, String)>) -> Seq<(int, Seq<char>)> {
    words.map_values(|entry: (usize, String)| (entry.0 as int, entry.1@))
}

/// The trimmed nonblank lines, each with its 1-based line number
pub open spec fn nonblank_lines(lines: Seq<Seq<char>>) -> Seq<(int, Seq<char>)>
    decreases lines.len(),
{
    if lines.len() == 0 {
        Seq::empty()
    } else if trim_of(lines.last()).len() == 0 {
        nonblank_lines(lines.drop_last())
    } else {
        nonblank_lines(lines.drop_last()).push((lines.len() as int, trim_of(lines.last())))
    }
}

/// Every word with its 1-based position
pub open spec fn numbered_words(words: Seq<Seq<char>>) -> Seq<(int, Seq<char>)> {
    Seq::new(words.len(), |i: int| (i + 1, words[i]))
}

/// The written words of a words file: one per nonblank line, trimmed, with
/// its line number
pub fn line_words(text: &str) -> (words: Vec<(usize, String)>)
    ensures
        numbered_view(words@) == nonblank_lines(lines_of(text@)),
{
    let lines = text_lines(text);
    let ghost all = lines_of(text@);
    let mut words: Vec<(usize, String)> = Vec::new();
    let mut i: usize = 0;
    while i < lines.len()
        invariant
            i <= lines@.len(),
            lines@.map_values(|line: String| line@) == all,
            numbered_view(words@) == nonblank_lines(all.take(i as int)),
        decreases lines@.len() - i,
    {
        assert(all.take(i + 1).drop_last() =~= all.take(i as int));
        assert(all.take(i + 1).last() == lines@[i as int]@);
        let word = trimmed(lines[i].as_str());
        proof {
            lemma_utf8_empty(word@);
        }
        if word.as_bytes().len() > 0 {
            let ghost before = words@;
            words.push((i + 1, owned(word)));
            assert(numbered_view(words@) =~= numbered_view(before).push(((i + 1) as int, word@)));
        } else {
            assert(word@.len() == 0);
        }
        i = i + 1;
    }
    assert(all.take(lines@.len() as int) =~= all);
    words
}

/// The written words of a whitespace-separated text, each with its position
pub fn whitespace_words(text: &str) -> (words: Vec<(usize, String)>)
    ensures
        numbered_view(words@) == numbered_words(whitespace_words_of(text@)),
{
    let split = text_words(text);
    let ghost all = whitespace_words_of(text@);
    let mut words: Vec<(usize, String)> = Vec::new();
    let mut i: usize = 0;
    while i < split.len()
        invariant
            i <= split@.len(),
            split@.map_values(|word: String| word@) == all,
            words@.len() == i,
            forall|k: int| 0 <= k < i ==> (#[trigger] words@[k]).0 == k + 1 && words@[k].1@ == all[k],
        decreases split@.len() - i,
    {
        assert(all[i as int] == split@[i as int]@);
        words.push((i + 1, split[i].clone()));
        i = i + 1;
    }
    assert(numbered_view(words@) =~= numbered_words(all));
    words
}

} // verus!
