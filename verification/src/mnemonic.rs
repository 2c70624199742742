//! Checksum-aware search over the missing words of a BIP39 mnemonic

use vstd::prelude::*;

use crate::bignat::BigNat;
use crate::digest::{hex_encode, hex_text, sha256, sha256_of};
use crate::domain::{trim_of, trimmed, CandidateId, VerificationTarget};
use crate::input::push_bytes;
use vstd::utf8::encode_utf8;
use crate::error::RecoverError;
use crate::input::{lines_of, text_lines};
use crate::neighbors::{bip39_english_word, english_word, WORD_LIST_LEN};
use crate::phase::{decimal, decimal_text};
use crate::text::owned;
use vstd::string::StrSliceExecFns;

verus! {

/// Slot value of a missing word
pub const MISSING_WORD: u16 = 65535;

/// Version of the mnemonic candidate ordering
pub const MNEMONIC_ALGORITHM_VERSION: u32 = 1;

/// Unicode NFKD normalization of a text, as BIP39 applies it
pub uninterp spec fn nfkd_of(text: Seq<char>) -> Seq<char>;

/// Normalize a passphrase as BIP39 requires
///
/// Calls `bip39::Mnemonic::normalize_utf8_cow`, which leaves an NFKD text
/// unchanged and otherwise replaces it by its NFKD form; the contract names
/// the result.
#[verifier::external_body]
fn normalize_utf8(value: String) -> (normalized: String)
    ensures
        normalized@ == nfkd_of(value@),
{
    let mut text = std::borrow::Cow::Owned(value);
    bip39::Mnemonic::normalize_utf8_cow(&mut text);
    text.into_owned()
}

/// A normalized BIP39 passphrase
#[derive(Clone)]
pub struct SecretPassphrase(String);

impl SecretPassphrase {
    pub closed spec fn view_text(&self) -> Seq<char> {
        self.0@
    }

    /// Construct and normalize a BIP39 passphrase
    pub fn new(value: String) -> (passphrase: Self)
        ensures
            passphrase.view_text() == nfkd_of(value@),
    {
        SecretPassphrase(normalize_utf8(value))
    }

    /// Borrow the normalized passphrase
    pub fn expose(&self) -> (text: &str)
        ensures
            text@ == self.view_text(),
    {
        self.0.as_str()
    }
}

/// ASCII lowercase of a character
pub open spec fn lower_char(c: char) -> char {
    if 'A' <= c <= 'Z' {
        ((c as u32) + 32) as char
    } else {
        c
    }
}

/// ASCII lowercase of every character
pub open spec fn lower_chars(text: Seq<char>) -> Seq<char> {
    text.map_values(|c: char| lower_char(c))
}

/// ASCII lowercase copy of a text
///
/// Calls `str::to_ascii_lowercase`, which maps 'A' to 'Z' onto 'a' to 'z' and
/// leaves every other character unchanged.
#[verifier::external_body]
pub(crate) fn ascii_lowercase(text: &str) -> (lower: String)
    ensures
        lower@ == lower_chars(text@),
{
    text.to_ascii_lowercase()
}

/// Index of a word in the BIP39 English list
///
/// Calls `bip39::Language::English.find_word`, a binary search of the sorted
/// English list (`bip39/src/language/mod.rs`), whose entries are distinct: it
/// finds a word exactly when the list holds it.
#[verifier::external_body]
fn english_word_index(word: &str) -> (index: Option<u16>)
    ensures
        match index {
            Some(i) => i < WORD_LIST_LEN && bip39_english_word(i as usize) == word@ && forall|j: usize|
                j < WORD_LIST_LEN && bip39_english_word(j) == word@ ==> j == i,
            None => forall|j: usize| j < WORD_LIST_LEN ==> bip39_english_word(j) != word@,
        },
{
    bip39::Language::English.find_word(word)
}

/// A standard BIP39 word count
pub open spec fn supported_word_count(count: nat) -> bool {
    count == 12 || count == 15 || count == 18 || count == 21 || count == 24
}

/// Slot of a template line: a missing word for `?`, the index of a BIP39
/// English word (after trimming and ASCII lowercasing), or nothing when the
/// line is empty or holds another word
pub open spec fn template_slot(line: Seq<char>) -> Option<u16> {
    let value = trim_of(line);
    if value == "?"@ {
        Some(MISSING_WORD)
    } else if value.len() == 0 {
        None
    } else if exists|j: usize| j < WORD_LIST_LEN && bip39_english_word(j) == lower_chars(value) {
        Some((choose|j: usize| j < WORD_LIST_LEN && bip39_english_word(j) == lower_chars(value)) as u16)
    } else {
        None
    }
}

/// Position (1-based) of the first line without a slot, or 0
pub open spec fn first_bad_line(lines: Seq<Seq<char>>) -> int
    decreases lines.len(),
{
    if lines.len() == 0 {
        0
    } else if first_bad_line(lines.drop_last()) > 0 {
        first_bad_line(lines.drop_last())
    } else if template_slot(lines.last()) is None {
        lines.len() as int
    } else {
        0
    }
}

proof fn lemma_first_bad_line_extends(lines: Seq<Seq<char>>, k: int)
    requires
        0 < k <= lines.len(),
        first_bad_line(lines.take(k)) == k,
    ensures
        first_bad_line(lines) == k,
    decreases lines.len(),
{
    if k < lines.len() {
        assert(lines.drop_last().take(k) =~= lines.take(k));
        lemma_first_bad_line_extends(lines.drop_last(), k);
    } else {
        assert(lines.take(k) =~= lines);
    }
}

/// Position-aware English BIP39 words with missing positions
pub struct MnemonicTemplate {
    slots: Vec<u16>,
}

impl Clone for MnemonicTemplate {
    fn clone(&self) -> (copy: Self)
        ensures
            copy.slots_view() == self.slots_view(),
    {
        proof {
            use_type_invariant(self);
        }
        let mut slots: Vec<u16> = Vec::new();
        let mut i: usize = 0;
        while i < self.slots.len()
            invariant
                i <= self.slots@.len(),
                slots@ == self.slots@.take(i as int),
            decreases self.slots@.len() - i,
        {
            slots.push(self.slots[i]);
            i = i + 1;
            assert(slots@ =~= self.slots@.take(i as int));
        }
        assert(self.slots@.take(self.slots@.len() as int) =~= self.slots@);
        MnemonicTemplate { slots }
    }
}

/// Slots of a template: a standard count of words, each missing or a BIP39
/// English word index
pub open spec fn template_slots_valid(slots: Seq<u16>) -> bool {
    &&& supported_word_count(slots.len())
    &&& forall|i: int| 0 <= i < slots.len() ==> #[trigger] slots[i] == MISSING_WORD || slots[i] < WORD_LIST_LEN
}

/// Number of known positions
pub open spec fn known_count(slots: Seq<u16>) -> nat
    decreases slots.len(),
{
    if slots.len() == 0 {
        0
    } else {
        known_count(slots.drop_last()) + if slots.last() != MISSING_WORD {
            1nat
        } else {
            0nat
        }
    }
}

proof fn lemma_known_count_bound(slots: Seq<u16>)
    ensures
        known_count(slots) <= slots.len(),
    decreases slots.len(),
{
    if slots.len() > 0 {
        lemma_known_count_bound(slots.drop_last());
    }
}

fn line_message(line: usize, tail: &str) -> (message: String)
    ensures
        message@ == "mnemonic template line "@ + decimal(line as nat) + tail@,
{
    let mut message = owned("mnemonic template line ");
    message.append(decimal_text(line).as_str());
    message.append(tail);
    message
}

impl MnemonicTemplate {
    pub closed spec fn slots_view(&self) -> Seq<u16> {
        self.slots@
    }

    #[verifier::type_invariant]
    spec fn valid(&self) -> bool {
        template_slots_valid(self.slots@)
    }

    /// Parse one BIP39 word or `?` per line
    pub fn parse(text: &str) -> (result: Result<Self, RecoverError>)
        ensures
            result is Ok <==> supported_word_count(lines_of(text@).len()) && first_bad_line(lines_of(text@)) == 0,
            result matches Ok(template) ==> template.slots_view().len() == lines_of(text@).len() && forall|i: int|
                0 <= i < lines_of(text@).len() ==> template_slot(lines_of(text@)[i]) == Some(
                    #[trigger] template.slots_view()[i],
                ),
            result matches Err(error) ==> error is InvalidSetting,
    {
        let lines = text_lines(text);
        let ghost all = lines_of(text@);
        let count = lines.len();
        if !(count == 12 || count == 15 || count == 18 || count == 21 || count == 24) {
            let mut message = owned("mnemonic template must contain 12, 15, 18, 21, or 24 lines; found ");
            message.append(decimal_text(count).as_str());
            return Err(RecoverError::InvalidSetting(message));
        }
        let question = owned("?");
        proof {
            reveal_strlit("?");
        }
        let mut slots: Vec<u16> = Vec::new();
        let mut i: usize = 0;
        while i < count
            invariant
                count == lines@.len(),
                all == lines_of(text@),
                lines@.map_values(|line: String| line@) == all,
                question@ == "?"@,
                supported_word_count(count as nat),
                i <= count,
                first_bad_line(all.take(i as int)) == 0,
                slots@.len() == i,
                forall|j: int| 0 <= j < i ==> template_slot(all[j]) == Some(#[trigger] slots@[j]),
                forall|j: int| 0 <= j < i ==> #[trigger] slots@[j] == MISSING_WORD || slots@[j] < WORD_LIST_LEN,
            decreases count - i,
        {
            assert(all.take(i + 1).drop_last() =~= all.take(i as int));
            assert(all.take(i + 1).last() == all[i as int]);
            assert(all[i as int] == lines@[i as int]@);
            let value = trimmed(lines[i].as_str());
            if owned(value) == question {
                slots.push(MISSING_WORD);
            } else if value.unicode_len() == 0 {
                proof {
                    lemma_first_bad_line_extends(all, i + 1);
                }
                return Err(
                    RecoverError::InvalidSetting(line_message(i + 1, " is empty; use ? for a missing word")),
                );
            } else {
                let normalized = ascii_lowercase(value);
                match english_word_index(normalized.as_str()) {
                    Some(word) => {
                        proof {
                            let j = choose|j: usize| j < WORD_LIST_LEN && bip39_english_word(j) == lower_chars(value@);
                            assert(j == word);
                        }
                        slots.push(word);
                    },
                    None => {
                        proof {
                            lemma_first_bad_line_extends(all, i + 1);
                        }
                        return Err(
                            RecoverError::InvalidSetting(line_message(i + 1, " is not an English BIP39 word")),
                        );
                    },
                }
            }
            i = i + 1;
        }
        assert(all.take(count as int) =~= all);
        Ok(MnemonicTemplate { slots })
    }

    /// Number of words in the complete mnemonic
    pub fn word_count(&self) -> (count: usize)
        ensures
            count == self.slots_view().len(),
            supported_word_count(count as nat),
    {
        proof {
            use_type_invariant(self);
        }
        self.slots.len()
    }

    /// Number of known word positions
    pub fn known_word_count(&self) -> (count: usize)
        ensures
            count == known_count(self.slots_view()),
    {
        let mut count: usize = 0;
        let mut i: usize = 0;
        while i < self.slots.len()
            invariant
                i <= self.slots@.len(),
                count == known_count(self.slots@.take(i as int)),
                count <= i,
            decreases self.slots@.len() - i,
        {
            assert(self.slots@.take(i + 1).drop_last() =~= self.slots@.take(i as int));
            if self.slots[i] != MISSING_WORD {
                count = count + 1;
            }
            i = i + 1;
        }
        assert(self.slots@.take(self.slots@.len() as int) =~= self.slots@);
        count
    }

    /// Number of missing word positions
    pub fn missing_word_count(&self) -> (count: usize)
        ensures
            count == self.slots_view().len() - known_count(self.slots_view()),
    {
        proof {
            lemma_known_count_bound(self.slots@);
        }
        self.word_count() - self.known_word_count()
    }

    /// Word index at a position, if the word is known
    pub fn word_index(&self, position: usize) -> (index: Option<u16>)
        requires
            position < self.slots_view().len(),
        ensures
            index == if self.slots_view()[position as int] == MISSING_WORD {
                None::<u16>
            } else {
                Some(self.slots_view()[position as int])
            },
            index matches Some(i) ==> i < WORD_LIST_LEN,
    {
        proof {
            use_type_invariant(self);
        }
        let index = self.slots[position];
        if index == MISSING_WORD {
            None
        } else {
            Some(index)
        }
    }

    /// Slots in order: a word index or the missing mark
    pub fn slots(&self) -> (slots: &[u16])
        ensures
            slots@ == self.slots_view(),
            template_slots_valid(slots@),
    {
        proof {
            use_type_invariant(self);
        }
        self.slots.as_slice()
    }
}

/// Bit `p` of bytes, most significant bit of each byte first
pub open spec fn byte_bit(bytes: Seq<u8>, p: int) -> bool {
    (bytes[p / 8] >> ((7 - p % 8) as u8)) & 1u8 == 1u8
}

/// Bit `k` (of 11, most significant first) of a word index
pub open spec fn word_bit(word: u16, k: int) -> bool {
    (word >> ((10 - k) as u16)) & 1u16 == 1u16
}

/// Number of entropy bits of a mnemonic with this many words
pub open spec fn entropy_bit_count(word_count: nat) -> nat {
    word_count / 3 * 32
}

/// Entropy bit `p` that a template fixes: the bit of the known word that
/// covers it, clear under a missing word
pub open spec fn known_entropy_bit(slots: Seq<u16>, p: int) -> bool {
    slots[p / 11] != MISSING_WORD && word_bit(slots[p / 11], p % 11)
}

/// Entropy positions below `n` that fall under a missing word, in order
pub open spec fn unknown_positions(slots: Seq<u16>, n: nat) -> Seq<usize>
    decreases n,
{
    if n == 0 {
        Seq::empty()
    } else if slots[(n - 1) / 11] == MISSING_WORD {
        unknown_positions(slots, (n - 1) as nat).push((n - 1) as usize)
    } else {
        unknown_positions(slots, (n - 1) as nat)
    }
}

proof fn lemma_unknown_positions(slots: Seq<u16>, n: nat)
    requires
        n <= usize::MAX,
    ensures
        unknown_positions(slots, n).len() <= n,
        forall|i: int, j: int|
            0 <= i < j < unknown_positions(slots, n).len() ==> #[trigger] unknown_positions(slots, n)[i]
                < #[trigger] unknown_positions(slots, n)[j],
        forall|i: int|
            0 <= i < unknown_positions(slots, n).len() ==> #[trigger] unknown_positions(slots, n)[i] < n
                && slots[(unknown_positions(slots, n)[i] / 11) as int] == MISSING_WORD,
        forall|p: int|
            0 <= p < n && slots[p / 11] == MISSING_WORD ==> #[trigger] unknown_positions(slots, n).contains(p as usize),
    decreases n,
{
    if n > 0 {
        lemma_unknown_positions(slots, (n - 1) as nat);
        let before = unknown_positions(slots, (n - 1) as nat);
        let after = unknown_positions(slots, n);
        assert forall|p: int| 0 <= p < n && slots[p / 11] == MISSING_WORD implies #[trigger] after.contains(p as usize) by {
            if p < n - 1 {
                assert(before.contains(p as usize));
                let k = choose|k: int| 0 <= k < before.len() && before[k] == p as usize;
                assert(after[k] == before[k]);
            } else {
                assert(after[after.len() - 1] == p as usize);
            }
        }
    }
}

proof fn lemma_set_bit(b: u8, s: u8, t: u8)
    requires
        s < 8,
        t < 8,
    ensures
        (((b | (1u8 << s)) >> t) & 1u8 == 1u8) == (s == t || ((b >> t) & 1u8 == 1u8)),
{
    assert((((b | (1u8 << s)) >> t) & 1u8 == 1u8) == (s == t || ((b >> t) & 1u8 == 1u8))) by (bit_vector)
        requires
            s < 8,
            t < 8,
    ;
}

proof fn lemma_zero_byte_bits(t: u8)
    requires
        t < 8,
    ensures
        (0u8 >> t) & 1u8 != 1u8,
{
    assert((0u8 >> t) & 1u8 != 1u8) by (bit_vector)
        requires
            t < 8,
    ;
}

/// Set entropy bit `position`, most significant bit of each byte first
pub fn set_entropy_bit(entropy: &mut Vec<u8>, position: usize)
    requires
        position < 8 * old(entropy)@.len(),
    ensures
        final(entropy)@.len() == old(entropy)@.len(),
        forall|q: int|
            0 <= q < 8 * old(entropy)@.len() ==> #[trigger] byte_bit(final(entropy)@, q) == (q == position
                || byte_bit(old(entropy)@, q)),
{
    let ghost before = entropy@;
    let index = position / 8;
    let shift: u8 = (7 - position % 8) as u8;
    let updated = entropy[index] | (1u8 << shift);
    entropy.set(index, updated);
    proof {
        assert forall|q: int| 0 <= q < 8 * before.len() implies #[trigger] byte_bit(entropy@, q) == (q == position
            || byte_bit(before, q)) by {
            if q / 8 == index {
                lemma_set_bit(before[index as int], shift, (7 - q % 8) as u8);
            } else {
                assert(entropy@[q / 8] == before[q / 8]);
            }
        }
    }
}

/// Bit `i` of a byte string, the most significant bit of each byte first
pub open spec fn bit_at(bytes: Seq<u8>, i: int) -> bool {
    (bytes[i / 8] as nat / vstd::arithmetic::power2::pow2((7 - i % 8) as nat)) % 2 == 1
}

/// Bit `i` of the entropy followed by its checksum, the leading bits of the
/// SHA-256 digest of the entropy
pub open spec fn checked_entropy_bit(entropy: Seq<u8>, i: int) -> bool {
    if i < entropy.len() * 8 {
        bit_at(entropy, i)
    } else {
        bit_at(sha256_of(entropy), i - entropy.len() * 8)
    }
}

/// The number formed by the first `m` of the eleven bits of word `k`
pub open spec fn word_bits(entropy: Seq<u8>, k: int, m: nat) -> nat
    decreases m,
{
    if m == 0 {
        0
    } else {
        2 * word_bits(entropy, k, (m - 1) as nat) + if checked_entropy_bit(entropy, 11 * k + m - 1) {
            1nat
        } else {
            0nat
        }
    }
}

/// Words of the English BIP39 mnemonic of an entropy, as word indices: word
/// `k` is bits `11k` to `11k + 10` of the entropy followed by its checksum
pub open spec fn mnemonic_words_of(entropy: Seq<u8>) -> Seq<u16> {
    Seq::new(entropy.len() * 3 / 4, |k: int| word_bits(entropy, k, 11) as u16)
}

/// Word indices of the English mnemonic of an entropy
///
/// Calls `bip39::Mnemonic::from_entropy_in` (English) and reads
/// `word_indices`. It accepts 16 to 32 bytes in steps of four, appends the
/// first `len / 4` bits of the SHA-256 digest of the entropy as a checksum,
/// and reads one word index from each eleven bits, most significant first
/// (`bip39/src/lib.rs`).
#[verifier::external_body]
fn english_mnemonic_words(entropy: &[u8]) -> (words: Vec<u16>)
    requires
        entropy@.len() == 16 || entropy@.len() == 20 || entropy@.len() == 24 || entropy@.len() == 28
            || entropy@.len() == 32,
    ensures
        words@ == mnemonic_words_of(entropy@),
        words@.len() == entropy@.len() * 3 / 4,
        forall|i: int| 0 <= i < words@.len() ==> #[trigger] words@[i] < WORD_LIST_LEN,
{
    match bip39::Mnemonic::from_entropy_in(bip39::Language::English, entropy) {
        Ok(mnemonic) => mnemonic.word_indices().map(|index| index as u16).collect(),
        Err(_) => Vec::new(),
    }
}

/// The known words of a template agree with a mnemonic's words
pub open spec fn known_words_agree(slots: Seq<u16>, words: Seq<u16>) -> bool {
    forall|w: int| 0 <= w < slots.len() && slots[w] != MISSING_WORD ==> #[trigger] words[w] == slots[w]
}

/// Words joined by single spaces
pub open spec fn phrase_of(words: Seq<u16>) -> Seq<char>
    decreases words.len(),
{
    if words.len() == 0 {
        Seq::empty()
    } else if words.len() == 1 {
        bip39_english_word(words[0] as usize)
    } else {
        phrase_of(words.drop_last()) + " "@ + bip39_english_word(words.last() as usize)
    }
}

/// Bytes are the entropy of a rank: bit `unknown[i]` is bit `u - 1 - i` of
/// the rank, and every other bit is the bit the template fixes
pub open spec fn rank_entropy(entropy: Seq<u8>, slots: Seq<u16>, unknown: Seq<usize>, rank: nat) -> bool {
    &&& entropy.len() == entropy_bit_count(slots.len()) / 8
    &&& forall|i: int|
        0 <= i < unknown.len() ==> byte_bit(entropy, #[trigger] unknown[i] as int) == crate::bignat::nat_bit(
            rank,
            (unknown.len() - 1 - i) as nat,
        )
    &&& forall|p: int|
        0 <= p < entropy_bit_count(slots.len()) && slots[p / 11] != MISSING_WORD ==> #[trigger] byte_bit(entropy, p)
            == word_bit(slots[p / 11], p % 11)
}

/// A checksum-valid mnemonic candidate and the rank that produced it
pub struct MnemonicCandidate {
    rank: BigNat,
    phrase: String,
}

impl MnemonicCandidate {
    pub closed spec fn rank_value(&self) -> nat {
        self.rank.value()
    }

    pub closed spec fn phrase_view(&self) -> Seq<char> {
        self.phrase@
    }

    /// Entropy-assignment rank that produced this mnemonic
    pub fn rank(&self) -> (rank: &BigNat)
        ensures
            rank.value() == self.rank_value(),
    {
        &self.rank
    }

    /// Borrow the normalized mnemonic phrase
    pub fn expose(&self) -> (phrase: &str)
        ensures
            phrase@ == self.phrase_view(),
    {
        self.phrase.as_str()
    }
}

/// Deterministic checksum-aware search over missing BIP39 entropy bits
pub struct MnemonicPlan {
    template: MnemonicTemplate,
    base_entropy: Vec<u8>,
    unknown_entropy_positions: Vec<usize>,
    total_work: BigNat,
    checksum_bits: usize,
    checksum_is_known: bool,
}

impl MnemonicPlan {
    pub closed spec fn slots_view(&self) -> Seq<u16> {
        self.template.slots_view()
    }

    pub closed spec fn unknown_view(&self) -> Seq<usize> {
        self.unknown_entropy_positions@
    }

    pub closed spec fn total_work_view(&self) -> nat {
        self.total_work.value()
    }

    pub closed spec fn checksum_bits_view(&self) -> usize {
        self.checksum_bits
    }

    pub closed spec fn checksum_is_known_view(&self) -> bool {
        self.checksum_is_known
    }

    #[verifier::type_invariant]
    spec fn valid(&self) -> bool {
        let slots = self.template.slots_view();
        let bits = entropy_bit_count(slots.len());
        &&& template_slots_valid(slots)
        &&& self.base_entropy@.len() == bits / 8
        &&& forall|p: int| 0 <= p < bits ==> #[trigger] byte_bit(self.base_entropy@, p) == known_entropy_bit(slots, p)
        &&& self.unknown_entropy_positions@ == unknown_positions(slots, bits)
        &&& self.total_work.value() == vstd::arithmetic::power2::pow2(self.unknown_entropy_positions@.len())
        &&& self.checksum_bits == slots.len() / 3
        &&& self.checksum_is_known == (slots[slots.len() - 1] != MISSING_WORD)
    }
}

proof fn lemma_byte_from_bits(a: u8, b: u8)
    requires
        (a >> 0u8) & 1u8 == (b >> 0u8) & 1u8,
        (a >> 1u8) & 1u8 == (b >> 1u8) & 1u8,
        (a >> 2u8) & 1u8 == (b >> 2u8) & 1u8,
        (a >> 3u8) & 1u8 == (b >> 3u8) & 1u8,
        (a >> 4u8) & 1u8 == (b >> 4u8) & 1u8,
        (a >> 5u8) & 1u8 == (b >> 5u8) & 1u8,
        (a >> 6u8) & 1u8 == (b >> 6u8) & 1u8,
        (a >> 7u8) & 1u8 == (b >> 7u8) & 1u8,
    ensures
        a == b,
{
    assert(a == b) by (bit_vector)
        requires
            (a >> 0u8) & 1u8 == (b >> 0u8) & 1u8,
            (a >> 1u8) & 1u8 == (b >> 1u8) & 1u8,
            (a >> 2u8) & 1u8 == (b >> 2u8) & 1u8,
            (a >> 3u8) & 1u8 == (b >> 3u8) & 1u8,
            (a >> 4u8) & 1u8 == (b >> 4u8) & 1u8,
            (a >> 5u8) & 1u8 == (b >> 5u8) & 1u8,
            (a >> 6u8) & 1u8 == (b >> 6u8) & 1u8,
            (a >> 7u8) & 1u8 == (b >> 7u8) & 1u8,
    ;
}

proof fn lemma_bit_is_one_or_zero(a: u8, t: u8)
    requires
        t < 8,
    ensures
        (a >> t) & 1u8 == 1u8 || (a >> t) & 1u8 == 0u8,
{
    assert((a >> t) & 1u8 == 1u8 || (a >> t) & 1u8 == 0u8) by (bit_vector);
}

proof fn lemma_same_byte_bit(a: Seq<u8>, b: Seq<u8>, k: int, t: u8)
    requires
        a.len() == b.len(),
        0 <= k < a.len(),
        t < 8,
        forall|p: int| 0 <= p < 8 * a.len() ==> #[trigger] byte_bit(a, p) == byte_bit(b, p),
    ensures
        (a[k] >> t) & 1u8 == (b[k] >> t) & 1u8,
{
    let p = 8 * k + (7 - t);
    assert(p / 8 == k && p % 8 == 7 - t);
    assert(byte_bit(a, p) == byte_bit(b, p));
    lemma_bit_is_one_or_zero(a[k], t);
    lemma_bit_is_one_or_zero(b[k], t);
}

/// Bytes with the same bits are the same bytes
pub proof fn lemma_bytes_from_bits(a: Seq<u8>, b: Seq<u8>)
    requires
        a.len() == b.len(),
        forall|p: int| 0 <= p < 8 * a.len() ==> #[trigger] byte_bit(a, p) == byte_bit(b, p),
    ensures
        a == b,
{
    assert forall|k: int| 0 <= k < a.len() implies a[k] == b[k] by {
        lemma_same_byte_bit(a, b, k, 0);
        lemma_same_byte_bit(a, b, k, 1);
        lemma_same_byte_bit(a, b, k, 2);
        lemma_same_byte_bit(a, b, k, 3);
        lemma_same_byte_bit(a, b, k, 4);
        lemma_same_byte_bit(a, b, k, 5);
        lemma_same_byte_bit(a, b, k, 6);
        lemma_same_byte_bit(a, b, k, 7);
        lemma_byte_from_bits(a[k], b[k]);
    }
    assert(a =~= b);
}

/// A template and a rank determine the entropy of the rank
pub proof fn lemma_rank_entropy_unique(a: Seq<u8>, b: Seq<u8>, slots: Seq<u16>, rank: nat)
    requires
        supported_word_count(slots.len()),
        rank_entropy(a, slots, unknown_positions(slots, entropy_bit_count(slots.len())), rank),
        rank_entropy(b, slots, unknown_positions(slots, entropy_bit_count(slots.len())), rank),
    ensures
        a == b,
{
    let bits = entropy_bit_count(slots.len());
    let unknown = unknown_positions(slots, bits);
    lemma_unknown_positions(slots, bits);
    assert forall|p: int| 0 <= p < 8 * a.len() implies #[trigger] byte_bit(a, p) == byte_bit(b, p) by {
        if slots[p / 11] == MISSING_WORD {
            assert(unknown.contains(p as usize));
            let i = choose|i: int| 0 <= i < unknown.len() && unknown[i] == p as usize;
            assert(byte_bit(a, unknown[i] as int) == byte_bit(b, unknown[i] as int));
        }
    }
    lemma_bytes_from_bits(a, b);
}

fn join_words(words: &Vec<u16>) -> (phrase: String)
    requires
        forall|i: int| 0 <= i < words@.len() ==> #[trigger] words@[i] < WORD_LIST_LEN,
    ensures
        phrase@ == phrase_of(words@),
{
    let mut phrase = String::new();
    let space = " ";
    let mut k: usize = 0;
    while k < words.len()
        invariant
            forall|i: int| 0 <= i < words@.len() ==> #[trigger] words@[i] < WORD_LIST_LEN,
            space@ == " "@,
            k <= words@.len(),
            phrase@ == phrase_of(words@.take(k as int)),
        decreases words@.len() - k,
    {
        assert(words@.take(k + 1).drop_last() =~= words@.take(k as int));
        if k > 0 {
            phrase.append(space);
        } else {
            assert(phrase_of(words@.take(0)) =~= Seq::<char>::empty());
        }
        phrase.append(english_word(words[k] as usize));
        k = k + 1;
    }
    assert(words@.take(words@.len() as int) =~= words@);
    phrase
}

impl MnemonicPlan {
    /// Reconstruct a checksum-valid candidate from its entropy-assignment rank
    ///
    /// The rank's bits fill the unknown entropy positions, most significant
    /// first; the candidate exists when the mnemonic of that entropy keeps
    /// every known word of the template.
    pub fn candidate_at(&self, rank: &BigNat) -> (result: Result<Option<MnemonicCandidate>, RecoverError>)
        ensures
            rank.value() >= self.total_work_view() ==> (result matches Err(error) && error is InvalidSetting),
            rank.value() < self.total_work_view() ==> (result matches Ok(found) && exists|entropy: Seq<u8>|
                {
                    &&& rank_entropy(entropy, self.slots_view(), self.unknown_view(), rank.value())
                    &&& found is Some <==> known_words_agree(self.slots_view(), mnemonic_words_of(entropy))
                    &&& found matches Some(candidate) ==> candidate.rank_value() == rank.value()
                        && candidate.phrase_view() == phrase_of(mnemonic_words_of(entropy))
                }),
    {
        proof {
            use_type_invariant(self);
        }
        let unknown = self.unknown_entropy_positions.as_slice();
        let count = unknown.len();
        if !rank.below_power_of_two(count) {
            return Err(
                RecoverError::InvalidSetting(owned("mnemonic candidate rank is outside the configured search")),
            );
        }
        let slots = self.template.slots();
        let ghost bits = entropy_bit_count(slots@.len());
        proof {
            lemma_unknown_positions(slots@, bits);
        }
        let mut entropy = crate::bytes::copy_bytes(&self.base_entropy);
        let mut i: usize = 0;
        while i < count
            invariant
                count == unknown@.len(),
                unknown@ == unknown_positions(slots@, bits),
                template_slots_valid(slots@),
                bits == entropy_bit_count(slots@.len()),
                entropy@.len() == bits / 8,
                i <= count,
                forall|a: int, b: int| 0 <= a < b < unknown@.len() ==> #[trigger] unknown@[a] < #[trigger] unknown@[b],
                forall|j: int| 0 <= j < unknown@.len() ==> #[trigger] unknown@[j] < bits && slots@[(unknown@[j] / 11) as int] == MISSING_WORD,
                forall|j: int| 0 <= j < i ==> byte_bit(entropy@, #[trigger] unknown@[j] as int) == crate::bignat::nat_bit(rank.value(), (count - 1 - j) as nat),
                forall|j: int| i <= j < count ==> !byte_bit(entropy@, #[trigger] unknown@[j] as int),
                forall|p: int| 0 <= p < bits && slots@[p / 11] != MISSING_WORD ==> #[trigger] byte_bit(entropy@, p) == word_bit(slots@[p / 11], p % 11),
            decreases count - i,
        {
            if rank.bit(count - 1 - i) {
                let ghost before = entropy@;
                set_entropy_bit(&mut entropy, unknown[i]);
                proof {
                    assert forall|j: int| 0 <= j < count && j != i implies byte_bit(entropy@, #[trigger] unknown@[j] as int) == byte_bit(before, unknown@[j] as int) by {
                        assert(unknown@[j] != unknown@[i as int]);
                    }
                }
            }
            i = i + 1;
        }
        let ghost e = entropy@;
        assert(rank_entropy(e, slots@, unknown@, rank.value()));
        let words = english_mnemonic_words(entropy.as_slice());
        let mut w: usize = 0;
        while w < slots.len()
            invariant
                rank.value() < self.total_work_view(),
                slots@ == self.slots_view(),
                unknown@ == self.unknown_view(),
                rank_entropy(e, slots@, unknown@, rank.value()),
                words@ == mnemonic_words_of(e),
                template_slots_valid(slots@),
                words@.len() == slots@.len(),
                w <= slots@.len(),
                forall|v: int| 0 <= v < w && slots@[v] != MISSING_WORD ==> #[trigger] words@[v] == slots@[v],
            decreases slots@.len() - w,
        {
            if slots[w] != MISSING_WORD && words[w] != slots[w] {
                proof {
                    assert(!known_words_agree(slots@, words@));
                }
                return Ok(None);
            }
            w = w + 1;
        }
        let phrase = join_words(&words);
        Ok(Some(MnemonicCandidate { rank: rank.copy(), phrase }))
    }
}

/// Big-integer cursor pointing to the next entropy assignment
pub struct MnemonicCursor {
    /// Rank of the next entropy assignment
    pub next_rank: BigNat,
}

impl Default for MnemonicCursor {
    fn default() -> (cursor: Self)
        ensures
            cursor.next_rank.value() == 0,
    {
        MnemonicCursor { next_rank: BigNat::zero() }
    }
}

/// The candidate of a rank exists: the mnemonic of the rank's entropy keeps
/// every known word
pub open spec fn rank_yields(slots: Seq<u16>, rank: nat) -> bool {
    exists|entropy: Seq<u8>|
        rank_entropy(entropy, slots, unknown_positions(slots, entropy_bit_count(slots.len())), rank)
            && known_words_agree(slots, mnemonic_words_of(entropy))
}

impl MnemonicPlan {
    /// Compile a position-aware template into a deterministic entropy search
    ///
    /// A template without a missing word must itself be a checksum-valid
    /// mnemonic.
    pub fn compile(template: MnemonicTemplate) -> (result: Result<Self, RecoverError>)
        ensures
            match result {
                Ok(plan) => {
                    &&& plan.slots_view() == template.slots_view()
                    &&& plan.unknown_view() == unknown_positions(
                        template.slots_view(),
                        entropy_bit_count(template.slots_view().len()),
                    )
                    &&& plan.total_work_view() == vstd::arithmetic::power2::pow2(plan.unknown_view().len())
                    &&& plan.checksum_bits_view() == template.slots_view().len() / 3
                    &&& plan.checksum_is_known_view() == (template.slots_view().last() != MISSING_WORD)
                    &&& plan.unknown_view().len() == 0 ==> rank_yields(template.slots_view(), 0)
                },
                Err(error) => error is InvalidSetting && plan_unknown_count(template.slots_view()) == 0
                    && !rank_yields(template.slots_view(), 0),
            },
    {
        let slots = template.slots();
        let word_count = slots.len();
        let entropy_bits = word_count / 3 * 32;
        let ghost bits = entropy_bit_count(word_count as nat);
        let mut base_entropy: Vec<u8> = Vec::new();
        let mut k: usize = 0;
        while k < entropy_bits / 8
            invariant
                k <= entropy_bits / 8,
                base_entropy@.len() == k,
                forall|j: int| 0 <= j < k ==> #[trigger] base_entropy@[j] == 0u8,
            decreases entropy_bits / 8 - k,
        {
            base_entropy.push(0u8);
            k = k + 1;
        }
        proof {
            assert forall|q: int| 0 <= q < bits implies !#[trigger] byte_bit(base_entropy@, q) by {
                lemma_zero_byte_bits((7 - q % 8) as u8);
            }
        }
        let mut unknown: Vec<usize> = Vec::new();
        let mut p: usize = 0;
        while p < entropy_bits
            invariant
                template_slots_valid(slots@),
                word_count == slots@.len(),
                entropy_bits == bits,
                bits == entropy_bit_count(slots@.len()),
                base_entropy@.len() == bits / 8,
                p <= bits,
                forall|q: int| 0 <= q < p ==> #[trigger] byte_bit(base_entropy@, q) == known_entropy_bit(slots@, q),
                forall|q: int| p <= q < bits ==> !#[trigger] byte_bit(base_entropy@, q),
                unknown@ == unknown_positions(slots@, p as nat),
            decreases bits - p,
        {
            let word = slots[p / 11];
            if word == MISSING_WORD {
                unknown.push(p);
            } else if (word >> ((10 - p % 11) as u16)) & 1u16 == 1u16 {
                let ghost before = base_entropy@;
                set_entropy_bit(&mut base_entropy, p);
            }
            p = p + 1;
        }
        let total_work = BigNat::power_of_two(unknown.len());
        let checksum_is_known = slots[word_count - 1] != MISSING_WORD;
        proof {
            use_type_invariant(&template);
        }
        let plan = MnemonicPlan {
            template,
            base_entropy,
            unknown_entropy_positions: unknown,
            total_work,
            checksum_bits: word_count / 3,
            checksum_is_known,
        };
        if plan.unknown_entropy_positions.len() == 0 {
            let zero = BigNat::zero();
            proof {
                vstd::arithmetic::power2::lemma2_to64();
            }
            let found = plan.candidate_at(&zero);
            match found {
                Ok(Some(_)) => {},
                _ => {
                    proof {
                        let slots = plan.slots_view();
                        let unknown = plan.unknown_view();
                        let e = choose|e: Seq<u8>|
                            {
                                &&& rank_entropy(e, slots, unknown, 0)
                                &&& found->Ok_0 is Some <==> known_words_agree(slots, mnemonic_words_of(e))
                                &&& found->Ok_0 matches Some(candidate) ==> candidate.rank_value() == 0
                                    && candidate.phrase_view() == phrase_of(mnemonic_words_of(e))
                            };
                        if rank_yields(slots, 0) {
                            let e2 = choose|e2: Seq<u8>|
                                rank_entropy(e2, slots, unknown_positions(slots, entropy_bit_count(slots.len())), 0)
                                    && known_words_agree(slots, mnemonic_words_of(e2));
                            lemma_rank_entropy_unique(e, e2, slots, 0);
                        }
                    }
                    return Err(
                        RecoverError::InvalidSetting(
                            owned("complete mnemonic template has an invalid BIP39 checksum"),
                        ),
                    );
                },
            }
        }
        Ok(plan)
    }

    /// Original mnemonic template
    pub fn template(&self) -> (template: &MnemonicTemplate)
        ensures
            template.slots_view() == self.slots_view(),
    {
        &self.template
    }

    /// Number of unknown entropy bits enumerated by this plan
    pub fn unknown_entropy_bits(&self) -> (bits: usize)
        ensures
            bits == self.unknown_view().len(),
    {
        self.unknown_entropy_positions.len()
    }

    /// Number of checksum bits in the configured BIP39 length
    pub fn checksum_bits(&self) -> (bits: usize)
        ensures
            bits == self.checksum_bits_view(),
    {
        self.checksum_bits
    }

    /// Whether the final known word constrains checksum bits
    pub fn checksum_is_known(&self) -> (known: bool)
        ensures
            known == self.checksum_is_known_view(),
    {
        self.checksum_is_known
    }

    /// Exact number of entropy assignments visited by the cursor
    pub fn total_work(&self) -> (total: &BigNat)
        ensures
            total.value() == self.total_work_view(),
            total.value() == vstd::arithmetic::power2::pow2(self.unknown_view().len()),
    {
        proof {
            use_type_invariant(self);
        }
        &self.total_work
    }
}

/// Number of unknown entropy bits of a template
pub open spec fn plan_unknown_count(slots: Seq<u16>) -> nat {
    unknown_positions(slots, entropy_bit_count(slots.len())).len()
}

/// A candidate is the mnemonic of its rank: the mnemonic of the rank's
/// entropy keeps every known word, and the phrase is its words
pub open spec fn candidate_of_rank(slots: Seq<u16>, candidate: MnemonicCandidate) -> bool {
    exists|entropy: Seq<u8>|
        {
            &&& rank_entropy(
                entropy,
                slots,
                unknown_positions(slots, entropy_bit_count(slots.len())),
                candidate.rank_value(),
            )
            &&& known_words_agree(slots, mnemonic_words_of(entropy))
            &&& candidate.phrase_view() == phrase_of(mnemonic_words_of(entropy))
        }
}

impl MnemonicPlan {
    /// Expected number of checksum-valid mnemonics: one for a complete
    /// template; the entropy assignments divided by 2^checksum bits (at least
    /// one) when the final word is known; otherwise every assignment
    pub fn expected_candidates(&self) -> (expected: BigNat)
        ensures
            expected.value() == if self.unknown_view().len() == 0 {
                1
            } else if self.checksum_is_known_view() {
                vstd::math::max(
                    (self.total_work_view() / vstd::arithmetic::power2::pow2(self.checksum_bits_view() as nat)) as int,
                    1,
                ) as nat
            } else {
                self.total_work_view()
            },
    {
        proof {
            use_type_invariant(self);
        }
        let unknown = self.unknown_entropy_positions.len();
        if unknown == 0 {
            return BigNat::from_u128(1);
        }
        if !self.checksum_is_known {
            return self.total_work.copy();
        }
        let checksum = self.checksum_bits;
        proof {
            vstd::arithmetic::power2::lemma_pow2_pos(checksum as nat);
        }
        if unknown >= checksum {
            proof {
                vstd::arithmetic::power2::lemma_pow2_subtracts(checksum as nat, unknown as nat);
            }
            BigNat::power_of_two(unknown - checksum)
        } else {
            proof {
                vstd::arithmetic::power2::lemma_pow2_strictly_increases(unknown as nat, checksum as nat);
                vstd::arithmetic::div_mod::lemma_basic_div(
                    vstd::arithmetic::power2::pow2(unknown as nat) as int,
                    vstd::arithmetic::power2::pow2(checksum as nat) as int,
                );
            }
            BigNat::from_u128(1)
        }
    }

    /// Generate up to `limit` valid candidates from the cursor, advancing it
    /// over every rank visited, rejected checksums included
    pub fn next_batch(&self, cursor: &mut MnemonicCursor, limit: usize) -> (result: Result<
        Vec<MnemonicCandidate>,
        RecoverError,
    >)
        ensures
            result matches Ok(candidates) && {
                let start = old(cursor).next_rank.value();
                let end = final(cursor).next_rank.value();
                let total = self.total_work_view();
                &&& candidates@.len() <= limit
                &&& start >= total ==> end == start && candidates@.len() == 0
                &&& start < total ==> start <= end <= total && (candidates@.len() == limit || end == total)
                &&& forall|a: int, b: int|
                    0 <= a < b < candidates@.len() ==> (#[trigger] candidates@[a]).rank_value()
                        < (#[trigger] candidates@[b]).rank_value()
                &&& forall|k: int|
                    0 <= k < candidates@.len() ==> start <= (#[trigger] candidates@[k]).rank_value() < end
                        && candidate_of_rank(self.slots_view(), candidates@[k])
                &&& forall|r: nat|
                    start <= r < end && #[trigger] rank_yields(self.slots_view(), r) ==> exists|k: int|
                        0 <= k < candidates@.len() && candidates@[k].rank_value() == r
            },
    {
        proof {
            use_type_invariant(self);
        }
        let ghost start = cursor.next_rank.value();
        let ghost slots = self.slots_view();
        let count = self.unknown_entropy_positions.len();
        let mut candidates: Vec<MnemonicCandidate> = Vec::new();
        while candidates.len() < limit && cursor.next_rank.below_power_of_two(count)
            invariant
                count == self.unknown_view().len(),
                self.total_work_view() == vstd::arithmetic::power2::pow2(count as nat),
                self.unknown_view() == unknown_positions(slots, entropy_bit_count(slots.len())),
                slots == self.slots_view(),
                supported_word_count(slots.len()),
                candidates@.len() <= limit,
                start >= self.total_work_view() ==> cursor.next_rank.value() == start && candidates@.len() == 0,
                start < self.total_work_view() ==> start <= cursor.next_rank.value() <= self.total_work_view(),
                forall|a: int, b: int|
                    0 <= a < b < candidates@.len() ==> (#[trigger] candidates@[a]).rank_value()
                        < (#[trigger] candidates@[b]).rank_value(),
                forall|k: int|
                    0 <= k < candidates@.len() ==> start <= (#[trigger] candidates@[k]).rank_value()
                        < cursor.next_rank.value() && candidate_of_rank(slots, candidates@[k]),
                forall|r: nat|
                    start <= r < cursor.next_rank.value() && #[trigger] rank_yields(slots, r) ==> exists|k: int|
                        0 <= k < candidates@.len() && candidates@[k].rank_value() == r,
            decreases self.total_work_view() - cursor.next_rank.value(),
        {
            let rank = cursor.next_rank.copy();
            cursor.next_rank.increment();
            let found = match self.candidate_at(&rank) {
                Ok(found) => found,
                Err(error) => return Err(error),
            };
            let ghost before = candidates@;
            let ghost r = rank.value();
            let ghost e = choose|e: Seq<u8>|
                {
                    &&& rank_entropy(e, self.slots_view(), self.unknown_view(), rank.value())
                    &&& found is Some <==> known_words_agree(self.slots_view(), mnemonic_words_of(e))
                    &&& found matches Some(candidate) ==> candidate.rank_value() == rank.value()
                        && candidate.phrase_view() == phrase_of(mnemonic_words_of(e))
                };
            match found {
                Some(candidate) => {
                    candidates.push(candidate);
                },
                None => {},
            }
            proof {
                assert forall|q: nat|
                    start <= q < cursor.next_rank.value() && #[trigger] rank_yields(slots, q) implies exists|k: int|
                        0 <= k < candidates@.len() && candidates@[k].rank_value() == q by {
                    if q < r {
                        let k = choose|k: int| 0 <= k < before.len() && before[k].rank_value() == q;
                        assert(candidates@[k] == before[k]);
                    } else {
                        let e2 = choose|e2: Seq<u8>|
                            rank_entropy(e2, slots, unknown_positions(slots, entropy_bit_count(slots.len())), q)
                                && known_words_agree(slots, mnemonic_words_of(e2));
                        lemma_rank_entropy_unique(e, e2, slots, q);
                        assert(candidates@[candidates@.len() - 1].rank_value() == q);
                    }
                }
                if found is Some {
                    assert(candidate_of_rank(slots, candidates@[candidates@.len() - 1]));
                }
            }
        }
        Ok(candidates)
    }
}

/// Bytes hashed to identify a mnemonic candidate: a prefix, the ordering
/// version as four little-endian bytes, and the phrase
pub open spec fn mnemonic_id_message(phrase: Seq<u8>) -> Seq<u8> {
    seq![
        114u8, 101, 99, 111, 118, 101, 114, 109, 101, 45, 109, 110, 101, 109, 111, 110, 105, 99, 45, 99, 97, 110,
        100, 105, 100, 97, 116, 101, 0,
    ] + seq![1u8, 0, 0, 0] + phrase
}

impl MnemonicCandidate {
    /// Stable identifier for this exact mnemonic: the hexadecimal SHA-256 of
    /// its identifying bytes
    pub fn id(&self) -> (id: CandidateId)
        ensures
            id.0@ == hex_text(sha256_of(mnemonic_id_message(encode_utf8(self.phrase_view())))),
    {
        let prefix: [u8; 33] = [
            114, 101, 99, 111, 118, 101, 114, 109, 101, 45, 109, 110, 101, 109, 111, 110, 105, 99, 45, 99, 97, 110,
            100, 105, 100, 97, 116, 101, 0, 1, 0, 0, 0,
        ];
        let mut message: Vec<u8> = Vec::new();
        push_bytes(&mut message, prefix.as_slice());
        push_bytes(&mut message, self.phrase.as_str().as_bytes());
        proof {
            assert(message@ =~= mnemonic_id_message(encode_utf8(self.phrase@)));
        }
        let digest = sha256(message.as_slice());
        CandidateId(hex_encode(digest.as_slice()))
    }
}

/// Protected inputs for one mnemonic recovery
#[derive(Clone)]
pub struct MnemonicRecoveryInputs {
    /// Position-aware mnemonic template
    pub template: MnemonicTemplate,
    /// Known BIP39 passphrase, including an explicitly empty passphrase
    pub passphrase: SecretPassphrase,
}

/// A text without its trailing carriage returns and line feeds
pub open spec fn trim_line_ends(text: Seq<char>) -> Seq<char>
    decreases text.len(),
{
    if text.len() > 0 && (text.last() == '\r' || text.last() == '\n') {
        trim_line_ends(text.drop_last())
    } else {
        text
    }
}

fn without_line_ends(text: &str) -> (trimmed_text: String)
    ensures
        trimmed_text@ == trim_line_ends(text@),
{
    let mut end = text.unicode_len();
    assert(text@.take(end as int) =~= text@);
    while end > 0 && (text.get_char(end - 1) == '\r' || text.get_char(end - 1) == '\n')
        invariant
            end <= text@.len(),
            trim_line_ends(text@) == trim_line_ends(text@.take(end as int)),
        decreases end,
    {
        assert(text@.take(end as int).drop_last() =~= text@.take(end - 1));
        end = end - 1;
    }
    proof {
        assert(text@.take(end as int) =~= text@.subrange(0, end as int));
    }
    owned(text.substring_char(0, end))
}

/// Inputs of a mnemonic recovery from the template text and the passphrase
/// choice: the text of a passphrase file (without its trailing line ends),
/// or the explicitly selected empty passphrase, never both
pub fn mnemonic_inputs(template_text: &str, passphrase_text: Option<String>, empty_passphrase: bool) -> (result: Result<
    MnemonicRecoveryInputs,
    RecoverError,
>)
    ensures
        match result {
            Ok(inputs) => {
                &&& supported_word_count(lines_of(template_text@).len())
                &&& first_bad_line(lines_of(template_text@)) == 0
                &&& inputs.template.slots_view().len() == lines_of(template_text@).len()
                &&& forall|i: int|
                    0 <= i < lines_of(template_text@).len() ==> template_slot(lines_of(template_text@)[i]) == Some(
                        #[trigger] inputs.template.slots_view()[i],
                    )
                &&& match passphrase_text {
                    Some(text) => !empty_passphrase && inputs.passphrase.view_text() == nfkd_of(trim_line_ends(text@)),
                    None => empty_passphrase && inputs.passphrase.view_text() == nfkd_of(Seq::empty()),
                }
            },
            Err(error) => error is InvalidSetting && (!(supported_word_count(lines_of(template_text@).len())
                && first_bad_line(lines_of(template_text@)) == 0) || (passphrase_text is Some) == empty_passphrase),
        },
{
    let template = match MnemonicTemplate::parse(template_text) {
        Ok(template) => template,
        Err(error) => return Err(error),
    };
    let passphrase = match passphrase_text {
        Some(text) => {
            if empty_passphrase {
                return Err(RecoverError::InvalidSetting(owned("passphrase-file conflicts with empty-passphrase")));
            }
            SecretPassphrase::new(without_line_ends(text.as_str()))
        },
        None => {
            if !empty_passphrase {
                return Err(
                    RecoverError::InvalidSetting(
                        owned("provide passphrase-file or explicitly select empty-passphrase"),
                    ),
                );
            }
            SecretPassphrase::new(String::new())
        },
    };
    Ok(MnemonicRecoveryInputs { template, passphrase })
}

/// Everything that a mnemonic recovery identifier hashes
pub open spec fn mnemonic_spec_message(slots: Seq<u16>, passphrase: Seq<char>, target: VerificationTarget) -> Seq<u8> {
    seq![
        114u8, 101, 99, 111, 118, 101, 114, 109, 101, 45, 109, 110, 101, 109, 111, 110, 105, 99, 45, 115, 112, 101,
        99, 45, 118, 49, 0,
    ] + crate::input::le_bytes(slots.len(), 8) + slot_bytes(slots) + encode_utf8(passphrase) + seq![0u8]
        + mnemonic_target_bytes(target)
}

/// Each slot as two little-endian bytes
pub open spec fn slot_bytes(slots: Seq<u16>) -> Seq<u8>
    decreases slots.len(),
{
    if slots.len() == 0 {
        Seq::empty()
    } else {
        slot_bytes(slots.drop_last()) + seq![(slots.last() % 256) as u8, (slots.last() / 256) as u8]
    }
}

/// The target's fingerprint, then the master public key and chain code when
/// it has them
pub open spec fn mnemonic_target_bytes(target: VerificationTarget) -> Seq<u8> {
    match target {
        VerificationTarget::Fingerprint(fingerprint) => fingerprint.view_bytes(),
        VerificationTarget::MasterXpub { fingerprint, master_xpub } => fingerprint.view_bytes()
            + master_xpub.public_key_view() + master_xpub.chain_code_view(),
    }
}

/// Compute a stable identifier for mnemonic recovery secrets and target: the
/// lowercase hexadecimal SHA-256 of their bytes
pub fn mnemonic_spec_hash(inputs: &MnemonicRecoveryInputs, target: &VerificationTarget) -> (hash: String)
    ensures
        hash@ == hex_text(
            sha256_of(mnemonic_spec_message(inputs.template.slots_view(), inputs.passphrase.view_text(), *target)),
        ),
{
    let prefix: [u8; 27] = [
        114, 101, 99, 111, 118, 101, 114, 109, 101, 45, 109, 110, 101, 109, 111, 110, 105, 99, 45, 115, 112, 101, 99,
        45, 118, 49, 0,
    ];
    let mut message: Vec<u8> = Vec::new();
    push_bytes(&mut message, prefix.as_slice());
    let slots = inputs.template.slots();
    let count = slots.len();
    proof {
        assert(count < 256);
        reveal_with_fuel(crate::input::le_bytes, 9);
    }
    let count_bytes: [u8; 8] = [count as u8, 0, 0, 0, 0, 0, 0, 0];
    push_bytes(&mut message, count_bytes.as_slice());
    proof {
        assert(count_bytes@ =~= crate::input::le_bytes(slots@.len(), 8));
    }
    let ghost head = message@;
    let mut i: usize = 0;
    while i < count
        invariant
            count == slots@.len(),
            i <= count,
            message@ == head + slot_bytes(slots@.take(i as int)),
        decreases count - i,
    {
        assert(slots@.take(i + 1).drop_last() =~= slots@.take(i as int));
        message.push((slots[i] % 256) as u8);
        message.push((slots[i] / 256) as u8);
        i = i + 1;
        assert(message@ =~= head + slot_bytes(slots@.take(i as int)));
    }
    assert(slots@.take(count as int) =~= slots@);
    push_bytes(&mut message, inputs.passphrase.expose().as_bytes());
    message.push(0u8);
    let fingerprint = target.fingerprint().bytes();
    push_bytes(&mut message, fingerprint.as_slice());
    match target.master_xpub() {
        Some(master_xpub) => {
            let public_key = master_xpub.public_key();
            push_bytes(&mut message, public_key.as_slice());
            let chain_code = master_xpub.chain_code();
            push_bytes(&mut message, chain_code.as_slice());
        },
        None => {},
    }
    proof {
        assert(message@ =~= mnemonic_spec_message(slots@, inputs.passphrase.view_text(), *target));
    }
    let digest = sha256(message.as_slice());
    hex_encode(digest.as_slice())
}

/// A rank identifies its mnemonic: two candidates of one template with the
/// same rank have the same phrase, so storing the rank of a match is enough to
/// show its words again
pub proof fn lemma_rank_determines_candidate(slots: Seq<u16>, a: MnemonicCandidate, b: MnemonicCandidate)
    requires
        supported_word_count(slots.len()),
        candidate_of_rank(slots, a),
        candidate_of_rank(slots, b),
        a.rank_value() == b.rank_value(),
    ensures
        a.phrase_view() == b.phrase_view(),
{
    let unknown = unknown_positions(slots, entropy_bit_count(slots.len()));
    let ea = choose|e: Seq<u8>|
        {
            &&& rank_entropy(e, slots, unknown, a.rank_value())
            &&& known_words_agree(slots, mnemonic_words_of(e))
            &&& a.phrase_view() == phrase_of(mnemonic_words_of(e))
        };
    let eb = choose|e: Seq<u8>|
        {
            &&& rank_entropy(e, slots, unknown, b.rank_value())
            &&& known_words_agree(slots, mnemonic_words_of(e))
            &&& b.phrase_view() == phrase_of(mnemonic_words_of(e))
        };
    lemma_rank_entropy_unique(ea, eb, slots, a.rank_value());
}

} // verus!
