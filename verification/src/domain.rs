//! Written words, recipes, candidates, cursors, and wallet targets

use vstd::prelude::*;
use vstd::utf8::encode_utf8;

use crate::bytes::{bytes_eq, deep, is_ascii_letter, is_ascii_letter_byte, is_letter_token};
use crate::digest::{hex_bytes, hex_decode, hex_digit, hex_encode, hex_text, hex_value, sha256, sha256_of};
use crate::crypto::{decode_xpub, xpub_fields_of};
use crate::error::RecoverError;
use crate::phase::SearchPhase;
use crate::settings::DEFAULT_MAX_PASSPHRASE_BYTES;
use crate::text::{ascii_string, ascii_strings, copy_strings, is_ascii_bytes, owned, string_bytes, utf8, utf8_all};

verus! {

/// Version of the candidate ordering and checkpoint format
pub const ALGORITHM_VERSION: u32 = 3;

/// The string's bytes form a nonempty ASCII-letter token
pub open spec fn is_letter_string(s: String) -> bool {
    is_letter_token(encode_utf8(s@))
}

/// Check that a string is a nonempty token of ASCII letters
pub fn letter_token(s: &String) -> (ok: bool)
    ensures
        ok == is_letter_string(*s),
{
    let bytes = string_bytes(s);
    if bytes.len() == 0 {
        return false;
    }
    let mut i: usize = 0;
    while i < bytes.len()
        invariant
            i <= bytes@.len(),
            bytes@ == encode_utf8(s@),
            forall|j: int| 0 <= j < i ==> is_ascii_letter(#[trigger] bytes@[j]),
        decreases bytes@.len() - i,
    {
        if !is_ascii_letter_byte(bytes[i]) {
            proof {
                assert(!is_ascii_letter(bytes@[i as int]));
                assert(!is_letter_token(bytes@));
            }
            return false;
        }
        i = i + 1;
    }
    true
}

/// First position (1-based) of a string that is not a letter token
pub open spec fn first_invalid_line(words: Seq<String>) -> int
    decreases words.len(),
{
    if words.len() == 0 {
        0
    } else if first_invalid_line(words.drop_last()) > 0 {
        first_invalid_line(words.drop_last())
    } else if !is_letter_string(words.last()) {
        words.len() as int
    } else {
        0
    }
}

fn find_invalid(words: &Vec<String>) -> (line: usize)
    ensures
        line == first_invalid_line(words@),
        line == 0 <==> forall|i: int| 0 <= i < words@.len() ==> #[trigger] is_letter_string(words@[i]),
{
    let mut i: usize = 0;
    while i < words.len()
        invariant
            i <= words@.len(),
            forall|j: int| 0 <= j < i ==> #[trigger] is_letter_string(words@[j]),
            first_invalid_line(words@.take(i as int)) == 0,
        decreases words@.len() - i,
    {
        assert(words@.take(i + 1).drop_last() =~= words@.take(i as int));
        if !letter_token(&words[i]) {
            proof {
                lemma_first_invalid_extends(words@, i as int + 1);
            }
            return i + 1;
        }
        i = i + 1;
    }
    assert(words@.take(words@.len() as int) =~= words@);
    0
}

/// No position is invalid exactly when every string is a letter token
pub proof fn lemma_first_invalid_line_zero(words: Seq<String>)
    ensures
        first_invalid_line(words) == 0 <==> forall|i: int| 0 <= i < words.len() ==> #[trigger] is_letter_string(words[i]),
    decreases words.len(),
{
    if words.len() > 0 {
        lemma_first_invalid_line_zero(words.drop_last());
        if first_invalid_line(words) == 0 {
            assert forall|i: int| 0 <= i < words.len() implies #[trigger] is_letter_string(words[i]) by {
                if i < words.len() - 1 {
                    assert(words.drop_last()[i] == words[i]);
                }
            }
        }
        if forall|i: int| 0 <= i < words.len() ==> #[trigger] is_letter_string(words[i]) {
            assert forall|i: int| 0 <= i < words.drop_last().len() implies #[trigger] is_letter_string(words.drop_last()[i]) by {
                assert(words.drop_last()[i] == words[i]);
            }
            assert(is_letter_string(words[words.len() - 1]));
        }
    }
}

proof fn lemma_first_invalid_extends(words: Seq<String>, k: int)
    requires
        0 < k <= words.len(),
        first_invalid_line(words.take(k)) == k,
    ensures
        first_invalid_line(words) == k,
    decreases words.len(),
{
    if k < words.len() {
        assert(words.drop_last().take(k) =~= words.take(k));
        lemma_first_invalid_extends(words.drop_last(), k);
    } else {
        assert(words.take(k) =~= words);
    }
}

/// Written passphrase tokens in their original positional order
#[derive(Debug, Clone, PartialEq, Eq)]
pub struct WrittenWords {
    words: Vec<String>,
}

impl WrittenWords {
    pub closed spec fn view(&self) -> Seq<String> {
        self.words@
    }

    pub closed spec fn well_formed(&self) -> bool {
        self.words@.len() > 0
    }

    /// Every word is a nonempty run of ASCII letters
    pub open spec fn letters(&self) -> bool {
        forall|i: int| 0 <= i < self.view().len() ==> #[trigger] is_letter_string(self.view()[i])
    }

    /// Construct a nonempty ordered collection of normalized words, kept as
    /// given
    pub fn new(words: Vec<String>) -> (result: Result<Self, RecoverError>)
        ensures
            result is Err <==> words@.len() == 0,
            result matches Err(error) ==> error == RecoverError::NoWrittenWords,
            result matches Ok(written) ==> written.view() == words@ && written.well_formed(),
    {
        if words.len() == 0 {
            return Err(RecoverError::NoWrittenWords);
        }
        Ok(WrittenWords { words })
    }

    /// One-based position of the first word that is not ASCII letters, or 0
    pub fn first_invalid(&self) -> (line: usize)
        ensures
            line == first_invalid_line(self.view()),
            line == 0 <==> self.letters(),
    {
        let line = find_invalid(&self.words);
        assert(self.view() == self.words@);
        line
    }

    /// Borrow the words
    pub fn as_slice(&self) -> (words: &[String])
        ensures
            words@ == self.view(),
    {
        self.words.as_slice()
    }

    /// Number of written words
    pub fn word_count(&self) -> (count: usize)
        ensures
            count == self.view().len(),
    {
        self.words.len()
    }

    pub proof fn lemma_well_formed(&self)
        requires
            self.well_formed(),
        ensures
            self.view().len() > 0,
    {
    }
}

/// One position of a recipe: ranked alternatives, possibly omitted
#[derive(Debug, Clone, PartialEq, Eq)]
pub struct TokenSlot {
    alternatives: Vec<String>,
    optional: bool,
}

impl TokenSlot {
    pub closed spec fn alternatives_view(&self) -> Seq<String> {
        self.alternatives@
    }

    pub closed spec fn optional_view(&self) -> bool {
        self.optional
    }

    pub open spec fn well_formed(&self) -> bool {
        self.alternatives_view().len() > 0 && forall|i: int|
            0 <= i < self.alternatives_view().len() ==> #[trigger] is_letter_string(self.alternatives_view()[i])
    }

    /// Construct a slot from ranked alternatives of ASCII-letter tokens
    pub fn new(alternatives: Vec<String>, optional: bool) -> (result: Result<Self, RecoverError>)
        ensures
            result is Ok <==> (alternatives@.len() > 0 && first_invalid_line(alternatives@) == 0),
            result matches Ok(slot) ==> slot.alternatives_view() == alternatives@ && slot.optional_view()
                == optional && slot.well_formed(),
            result matches Err(error) ==> error is InvalidSetting,
    {
        if alternatives.len() == 0 {
            return Err(RecoverError::InvalidSetting(owned("a recipe slot needs at least one alternative")));
        }
        if find_invalid(&alternatives) != 0 {
            return Err(
                RecoverError::InvalidSetting(owned("recipe alternatives must be nonempty ASCII letters")),
            );
        }
        Ok(TokenSlot { alternatives, optional })
    }

    /// Alternatives in rank order
    pub fn alternatives(&self) -> (alternatives: &[String])
        ensures
            alternatives@ == self.alternatives_view(),
    {
        self.alternatives.as_slice()
    }

    /// Whether the slot may be omitted
    pub fn is_optional(&self) -> (optional: bool)
        ensures
            optional == self.optional_view(),
    {
        self.optional
    }
}

/// Ranked recipe of token slots
#[derive(Debug, Clone, PartialEq, Eq)]
pub struct RecoveryRecipe {
    slots: Vec<TokenSlot>,
}

impl RecoveryRecipe {
    pub closed spec fn view(&self) -> Seq<TokenSlot> {
        self.slots@
    }

    pub open spec fn well_formed(&self) -> bool {
        self.view().len() > 0 && forall|i: int| 0 <= i < self.view().len() ==> #[trigger] self.view()[i].well_formed()
    }

    /// Construct a nonempty recipe
    pub fn new(slots: Vec<TokenSlot>) -> (result: Result<Self, RecoverError>)
        requires
            forall|i: int| 0 <= i < slots@.len() ==> #[trigger] slots@[i].well_formed(),
        ensures
            result is Ok <==> slots@.len() > 0,
            result matches Ok(recipe) ==> recipe.view() == slots@ && recipe.well_formed(),
            result matches Err(error) ==> error == RecoverError::NoWrittenWords,
    {
        if slots.len() == 0 {
            return Err(RecoverError::NoWrittenWords);
        }
        Ok(RecoveryRecipe { slots })
    }

    /// One required single-alternative slot per written word
    pub fn from_written_words(written: &WrittenWords) -> (recipe: Self)
        requires
            written.well_formed(),
            written.letters(),
        ensures
            recipe.well_formed(),
            recipe.view().len() == written.view().len(),
            forall|i: int|
                0 <= i < written.view().len() ==> #[trigger] recipe.view()[i].alternatives_view() == seq![
                    written.view()[i],
                ] && !recipe.view()[i].optional_view(),
    {
        let words = written.as_slice();
        let mut slots: Vec<TokenSlot> = Vec::new();
        let mut i: usize = 0;
        proof {
            written.lemma_well_formed();
        }
        while i < words.len()
            invariant
                words@ == written.view(),
                forall|j: int| 0 <= j < words@.len() ==> #[trigger] is_letter_string(words@[j]),
                i <= words@.len(),
                slots@.len() == i,
                forall|j: int| 0 <= j < i ==> #[trigger] slots@[j].well_formed(),
                forall|j: int|
                    0 <= j < i ==> #[trigger] slots@[j].alternatives_view() == seq![words@[j]]
                        && !slots@[j].optional_view(),
            decreases words@.len() - i,
        {
            let mut alternatives: Vec<String> = Vec::new();
            alternatives.push(words[i].clone());
            let slot = TokenSlot { alternatives, optional: false };
            proof {
                assert(slot.alternatives_view() =~= seq![words@[i as int]]);
            }
            slots.push(slot);
            i = i + 1;
        }
        RecoveryRecipe { slots }
    }

    /// Slots in written order
    pub fn slots(&self) -> (slots: &[TokenSlot])
        ensures
            slots@ == self.view(),
    {
        self.slots.as_slice()
    }
}

/// Stable identifier for exact passphrase bytes supplied to BIP39
#[derive(Debug, Clone, PartialEq, Eq, Hash)]
pub struct CandidateId(pub String);

/// Bytes hashed to identify a candidate passphrase
pub open spec fn candidate_id_message(passphrase: Seq<u8>) -> Seq<u8> {
    seq![114u8, 101, 99, 111, 118, 101, 114, 109, 101, 45, 99, 97, 110, 100, 105, 100, 97, 116, 101, 0]
        + seq![3u8, 0, 0, 0] + passphrase
}

/// Identifier text of a candidate passphrase
pub open spec fn candidate_id_text(passphrase: Seq<u8>) -> Seq<char> {
    hex_text(sha256_of(candidate_id_message(passphrase)))
}

impl CandidateId {
    /// Identifier for exact passphrase bytes
    pub fn for_passphrase(passphrase: &[u8]) -> (id: CandidateId)
        ensures
            id.0@ == candidate_id_text(passphrase@),
            id.0@.len() == 64,
    {
        let mut message: Vec<u8> = Vec::new();
        let prefix: [u8; 20] = [
            114, 101, 99, 111, 118, 101, 114, 109, 101, 45, 99, 97, 110, 100, 105, 100, 97, 116, 101, 0,
        ];
        let mut i: usize = 0;
        while i < 20
            invariant
                i <= 20,
                message@ == prefix@.take(i as int),
            decreases 20 - i,
        {
            message.push(prefix[i]);
            i = i + 1;
            assert(message@ =~= prefix@.take(i as int));
        }
        let version = ALGORITHM_VERSION;
        message.push((version % 256) as u8);
        message.push(((version / 256) % 256) as u8);
        message.push(((version / 65536) % 256) as u8);
        message.push((version / 16777216) as u8);
        let ghost head = message@;
        let mut j: usize = 0;
        while j < passphrase.len()
            invariant
                j <= passphrase@.len(),
                message@ == head + passphrase@.take(j as int),
            decreases passphrase@.len() - j,
        {
            message.push(passphrase[j]);
            j = j + 1;
            assert(message@ =~= head + passphrase@.take(j as int));
        }
        proof {
            assert(passphrase@.take(passphrase@.len() as int) =~= passphrase@);
            assert(prefix@.take(20) =~= prefix@);
            assert(message@ =~= candidate_id_message(passphrase@));
        }
        let digest = sha256(message.as_slice());
        proof {
            crate::digest::lemma_hex_text_len(digest@);
        }
        CandidateId(hex_encode(digest.as_slice()))
    }
}

/// Concatenation of string views
pub open spec fn concat_chars(words: Seq<String>) -> Seq<char>
    decreases words.len(),
{
    if words.len() == 0 {
        Seq::empty()
    } else {
        concat_chars(words.drop_last()) + words.last()@
    }
}

/// Candidate passphrase and its readable word segmentation
#[derive(Debug, Clone)]
pub struct Candidate {
    id: CandidateId,
    phase: SearchPhase,
    passphrase: String,
    words: Vec<String>,
}

impl Candidate {
    pub closed spec fn id_view(&self) -> CandidateId {
        self.id
    }

    pub closed spec fn phase_view(&self) -> SearchPhase {
        self.phase
    }

    pub closed spec fn passphrase_view(&self) -> String {
        self.passphrase
    }

    pub closed spec fn words_view(&self) -> Seq<String> {
        self.words@
    }

    /// Construct a candidate from already transformed words
    pub fn new(id: CandidateId, phase: SearchPhase, words: Vec<String>) -> (candidate: Self)
        ensures
            candidate.id_view() == id,
            candidate.phase_view() == phase,
            candidate.words_view() == words@,
            candidate.passphrase_view()@ == concat_chars(words@),
    {
        let mut passphrase = String::new();
        let mut i: usize = 0;
        while i < words.len()
            invariant
                i <= words@.len(),
                passphrase@ == concat_chars(words@.take(i as int)),
            decreases words@.len() - i,
        {
            assert(words@.take(i + 1).drop_last() =~= words@.take(i as int));
            passphrase.append(words[i].as_str());
            i = i + 1;
        }
        assert(words@.take(words@.len() as int) =~= words@);
        Candidate { id, phase, passphrase, words }
    }

    /// Candidate built from passphrase bytes and the tokens that produced it
    pub fn from_bytes(phase: SearchPhase, passphrase: &Vec<u8>, words: &Vec<Vec<u8>>) -> (candidate: Self)
        requires
            is_ascii_bytes(passphrase@),
            forall|i: int| 0 <= i < words@.len() ==> is_ascii_bytes(#[trigger] words@[i]@),
        ensures
            candidate.phase_view() == phase,
            utf8(candidate.passphrase_view()) == passphrase@,
            utf8_all(candidate.words_view()) == deep(words@),
            candidate.id_view().0@ == candidate_id_text(passphrase@),
            candidate.id_view().0@.len() == 64,
    {
        let text = ascii_string(passphrase);
        let strings = ascii_strings(words);
        let id = CandidateId::for_passphrase(passphrase.as_slice());
        proof {
            assert(utf8_all(strings@) =~= deep(words@));
        }
        Candidate { id, phase, passphrase: text, words: strings }
    }

    /// Candidate of a phase whose passphrase is its words concatenated
    pub fn from_words(phase: SearchPhase, words: Vec<String>) -> (candidate: Self)
        ensures
            candidate.phase_view() == phase,
            candidate.words_view() == words@,
            candidate.passphrase_view()@ == concat_chars(words@),
            candidate.id_view().0@ == candidate_id_text(encode_utf8(concat_chars(words@))),
            candidate.id_view().0@.len() == 64,
    {
        let placeholder = CandidateId(String::new());
        let candidate = Candidate::new(placeholder, phase, words);
        let id = CandidateId::for_passphrase(candidate.passphrase.as_str().as_bytes());
        Candidate { id, ..candidate }
    }

    /// A candidate from its parts, with no check that they agree
    pub fn from_parts(id: CandidateId, phase: SearchPhase, passphrase: String, words: Vec<String>) -> (candidate:
        Self)
        ensures
            candidate.id_view() == id,
            candidate.phase_view() == phase,
            candidate.passphrase_view() == passphrase,
            candidate.words_view() == words@,
    {
        Candidate { id, phase, passphrase, words }
    }

    /// A copy of the candidate
    pub fn copy(&self) -> (copy: Self)
        ensures
            copy.id_view() == self.id_view(),
            copy.phase_view() == self.phase_view(),
            copy.passphrase_view() == self.passphrase_view(),
            copy.words_view() == self.words_view(),
    {
        Candidate {
            id: CandidateId(self.id.0.clone()),
            phase: self.phase,
            passphrase: self.passphrase.clone(),
            words: copy_strings(self.words.as_slice()),
        }
    }

    /// Stable candidate identifier
    pub fn id(&self) -> (id: &CandidateId)
        ensures
            *id == self.id_view(),
    {
        &self.id
    }

    /// Search phase that produced this candidate
    pub fn phase(&self) -> (phase: SearchPhase)
        ensures
            phase == self.phase_view(),
    {
        self.phase
    }

    /// Exact passphrase tested by BIP39
    pub fn passphrase(&self) -> (passphrase: &str)
        ensures
            passphrase@ == self.passphrase_view()@,
    {
        self.passphrase.as_str()
    }

    /// Readable segmentation of the passphrase
    pub fn words(&self) -> (words: &[String])
        ensures
            words@ == self.words_view(),
    {
        self.words.as_slice()
    }
}

/// Byte width reserved for each candidate: the longest passphrase, at least one
pub open spec fn batch_stride(lengths: Seq<nat>) -> nat
    decreases lengths.len(),
{
    if lengths.len() == 0 {
        1
    } else {
        let rest = batch_stride(lengths.drop_last());
        if lengths.last() > rest {
            lengths.last()
        } else {
            rest
        }
    }
}

/// UTF-8 length of each candidate passphrase
pub open spec fn passphrase_lengths(candidates: Seq<Candidate>) -> Seq<nat> {
    candidates.map_values(|c: Candidate| utf8(c.passphrase_view()).len())
}

/// Reusable packed representation of an ordered candidate batch
pub struct CandidateBatch {
    candidates: Vec<Candidate>,
    bytes: Vec<u8>,
    lengths: Vec<u16>,
    stride: usize,
}

/// Error text for a candidate whose passphrase does not fit a batch row
fn too_long_text(id: &String) -> (text: String)
    ensures
        text@ == "candidate "@ + id@ + " exceeds 100 bytes"@,
{
    let mut text = owned("candidate ");
    text.append(id.as_str());
    text.append(" exceeds 100 bytes");
    text
}

impl CandidateBatch {
    pub closed spec fn candidates_view(&self) -> Seq<Candidate> {
        self.candidates@
    }

    pub closed spec fn bytes_view(&self) -> Seq<u8> {
        self.bytes@
    }

    pub closed spec fn lengths_view(&self) -> Seq<u16> {
        self.lengths@
    }

    pub closed spec fn stride_view(&self) -> usize {
        self.stride
    }

    /// Packing invariant: each candidate occupies one zero-padded row of
    /// `stride` bytes and its length is recorded
    pub open spec fn packs(&self) -> bool {
        let candidates = self.candidates_view();
        let stride = self.stride_view() as int;
        &&& stride == batch_stride(passphrase_lengths(candidates))
        &&& stride <= DEFAULT_MAX_PASSPHRASE_BYTES
        &&& self.bytes_view().len() == candidates.len() * stride
        &&& self.lengths_view().len() == candidates.len()
        &&& forall|i: int|
            0 <= i < candidates.len() ==> {
                let p = utf8(#[trigger] candidates[i].passphrase_view());
                &&& self.lengths_view()[i] == p.len()
                &&& self.bytes_view().subrange(i * stride, i * stride + p.len()) == p
                &&& forall|j: int|
                    i * stride + p.len() <= j < (i + 1) * stride ==> self.bytes_view()[j] == 0
            }
    }

    /// Pack candidates into fixed-width bytes for CPU and accelerator backends
    pub fn new(candidates: Vec<Candidate>) -> (result: Result<Self, RecoverError>)
        ensures
            result is Ok <==> batch_stride(passphrase_lengths(candidates@)) <= DEFAULT_MAX_PASSPHRASE_BYTES,
            result matches Ok(batch) ==> batch.candidates_view() == candidates@ && batch.packs(),
            result matches Err(error) ==> error is SeedDerivation,
            result matches Err(error) ==> exists|k: int|
                0 <= k < candidates@.len() && passphrase_lengths(candidates@)[k] > DEFAULT_MAX_PASSPHRASE_BYTES && (
                forall|j: int| 0 <= j < k ==> passphrase_lengths(candidates@)[j] <= DEFAULT_MAX_PASSPHRASE_BYTES)
                    && (error matches RecoverError::SeedDerivation(message) && message@ == "candidate "@
                    + candidates@[k].id_view().0@ + " exceeds 100 bytes"@),
    {
        let mut stride: usize = 1;
        let mut too_long: Option<usize> = None;
        let mut i: usize = 0;
        let ghost lengths = passphrase_lengths(candidates@);
        while i < candidates.len()
            invariant
                i <= candidates@.len(),
                lengths == passphrase_lengths(candidates@),
                stride == batch_stride(lengths.take(i as int)),
                too_long is None ==> stride <= DEFAULT_MAX_PASSPHRASE_BYTES,
                too_long matches Some(k) ==> k < i && lengths[k as int] > DEFAULT_MAX_PASSPHRASE_BYTES && forall|j: int|
                    0 <= j < k ==> lengths[j] <= DEFAULT_MAX_PASSPHRASE_BYTES,
                too_long is None ==> forall|j: int| 0 <= j < i ==> lengths[j] <= DEFAULT_MAX_PASSPHRASE_BYTES,
            decreases candidates@.len() - i,
        {
            let length = candidates[i].passphrase.as_str().as_bytes().len();
            proof {
                assert(lengths.take(i + 1).drop_last() =~= lengths.take(i as int));
                assert(lengths[i as int] == length);
            }
            if length > stride {
                stride = length;
            }
            if length > DEFAULT_MAX_PASSPHRASE_BYTES && too_long.is_none() {
                too_long = Some(i);
            }
            i = i + 1;
        }
        assert(lengths.take(candidates@.len() as int) =~= lengths);
        if let Some(index) = too_long {
            proof {
                lemma_stride_at_least(lengths, index as int);
            }
            let message = too_long_text(&candidates[index].id.0);
            return Err(RecoverError::SeedDerivation(message));
        }
        proof {
            assert forall|k: int| 0 <= k < candidates@.len() implies lengths[k] <= stride by {
                lemma_stride_at_least(lengths, k);
            }
            if candidates@.len() > 0 {
                lemma_stride_at_least(lengths, 0);
            }
        }
        let mut bytes: Vec<u8> = Vec::new();
        let mut lengths_out: Vec<u16> = Vec::new();
        let mut index: usize = 0;
        while index < candidates.len()
            invariant
                index <= candidates@.len(),
                lengths == passphrase_lengths(candidates@),
                stride == batch_stride(lengths),
                1 <= stride <= DEFAULT_MAX_PASSPHRASE_BYTES,
                forall|k: int| 0 <= k < candidates@.len() ==> lengths[k] <= stride,
                bytes@.len() == index * stride,
                lengths_out@.len() == index,
                forall|k: int|
                    0 <= k < index ==> {
                        let p = utf8(#[trigger] candidates@[k].passphrase_view());
                        &&& lengths_out@[k] == p.len()
                        &&& bytes@.subrange(k * stride, k * stride + p.len()) == p
                        &&& forall|j: int| k * stride + p.len() <= j < (k + 1) * stride ==> bytes@[j] == 0
                    },
            decreases candidates@.len() - index,
        {
            let passphrase = string_bytes(&candidates[index].passphrase);
            let ghost row_start = bytes@.len() as int;
            let ghost before = bytes@;
            proof {
                assert(lengths[index as int] == passphrase@.len());
                lemma_stride_at_least(lengths, index as int);
            }
            let mut j: usize = 0;
            while j < stride
                invariant
                    j <= stride,
                    row_start == index * stride,
                    bytes@.len() == row_start + j,
                    passphrase@.len() <= stride,
                    before.len() == row_start,
                    bytes@.subrange(0, row_start) == before,
                    forall|t: int| row_start <= t < row_start + j ==> #[trigger] bytes@[t] == row_byte(passphrase@, t - row_start),
                decreases stride - j,
            {
                let ghost prior = bytes@;
                if j < passphrase.len() {
                    bytes.push(passphrase[j]);
                } else {
                    bytes.push(0);
                }
                proof {
                    assert(bytes@.subrange(0, row_start) =~= prior.subrange(0, row_start));
                    assert forall|t: int| row_start <= t < row_start + j + 1 implies #[trigger] bytes@[t] == row_byte(passphrase@, t - row_start) by {
                        if t < row_start + j {
                            assert(bytes@[t] == prior[t]);
                        }
                    }
                }
                j = j + 1;
            }
            lengths_out.push(passphrase.len() as u16);
            proof {
                assert(bytes@.subrange(row_start, row_start + passphrase@.len()) =~= passphrase@) by {
                    assert forall|t: int| 0 <= t < passphrase@.len() implies bytes@.subrange(row_start, row_start + passphrase@.len())[t] == passphrase@[t] by {
                        assert(bytes@[row_start + t] == row_byte(passphrase@, t));
                    }
                }
                assert forall|k: int|
                    0 <= k < index + 1 implies {
                        let p = utf8(#[trigger] candidates@[k].passphrase_view());
                        &&& lengths_out@[k] == p.len()
                        &&& bytes@.subrange(k * stride, k * stride + p.len()) == p
                        &&& forall|x: int| k * stride + p.len() <= x < (k + 1) * stride ==> bytes@[x] == 0
                    } by {
                    let p = utf8(candidates@[k].passphrase_view());
                    if k < index {
                        assert(lengths[k] == p.len());
                        assert(p.len() <= stride);
                        assert(0 <= k * stride) by (nonlinear_arith)
                            requires
                                k >= 0,
                                stride >= 1,
                        ;
                        assert((k + 1) * stride <= index * stride) by (nonlinear_arith)
                            requires
                                k + 1 <= index,
                                stride >= 0,
                        ;
                        assert((k + 1) * stride == k * stride + stride) by (nonlinear_arith);
                        assert(bytes@.subrange(k * stride, k * stride + p.len()) =~= before.subrange(k * stride, k * stride + p.len())) by {
                            assert forall|x: int| 0 <= x < p.len() implies #[trigger] bytes@.subrange(k * stride, k * stride + p.len())[x] == before.subrange(k * stride, k * stride + p.len())[x] by {
                                assert(bytes@.subrange(0, row_start)[k * stride + x] == bytes@[k * stride + x]);
                            }
                        }
                        assert forall|x: int| k * stride + p.len() <= x < (k + 1) * stride implies bytes@[x] == 0 by {
                            assert(bytes@.subrange(0, row_start)[x] == bytes@[x]);
                        }
                    } else {
                        assert((k + 1) * stride == k * stride + stride) by (nonlinear_arith);
                        assert forall|x: int| k * stride + p.len() <= x < (k + 1) * stride implies bytes@[x] == 0 by {
                            assert(bytes@[x] == row_byte(passphrase@, x - row_start));
                        }
                    }
                }
                assert(bytes@.len() == (index + 1) * stride) by (nonlinear_arith)
                    requires
                        bytes@.len() == index * stride + stride,
                ;
            }
            index = index + 1;
        }
        Ok(CandidateBatch { candidates, bytes, lengths: lengths_out, stride })
    }

    /// Candidate metadata in the same order as packed bytes
    pub fn candidates(&self) -> (candidates: &[Candidate])
        ensures
            candidates@ == self.candidates_view(),
    {
        self.candidates.as_slice()
    }

    /// Contiguous fixed-stride candidate bytes
    pub fn bytes(&self) -> (bytes: &[u8])
        ensures
            bytes@ == self.bytes_view(),
    {
        self.bytes.as_slice()
    }

    /// Actual byte length of every candidate
    pub fn lengths(&self) -> (lengths: &[u16])
        ensures
            lengths@ == self.lengths_view(),
    {
        self.lengths.as_slice()
    }

    /// Byte width reserved for each candidate in the packed buffer
    pub fn stride(&self) -> (stride: usize)
        ensures
            stride == self.stride_view(),
    {
        self.stride
    }

    /// Number of candidates in the batch
    pub fn len(&self) -> (len: usize)
        ensures
            len == self.candidates_view().len(),
    {
        self.candidates.len()
    }

    /// Whether the batch contains no candidates
    pub fn is_empty(&self) -> (empty: bool)
        ensures
            empty == (self.candidates_view().len() == 0),
    {
        self.candidates.len() == 0
    }
}

spec fn row_byte(p: Seq<u8>, k: int) -> u8 {
    if k < p.len() {
        p[k]
    } else {
        0
    }
}

/// The stride of lengths that are all within a bound of at least one is
/// within the bound
pub proof fn lemma_stride_bounded(lengths: Seq<nat>, bound: nat)
    requires
        bound >= 1,
        forall|k: int| 0 <= k < lengths.len() ==> #[trigger] lengths[k] <= bound,
    ensures
        batch_stride(lengths) <= bound,
    decreases lengths.len(),
{
    if lengths.len() > 0 {
        assert forall|k: int| 0 <= k < lengths.drop_last().len() implies #[trigger] lengths.drop_last()[k] <= bound by {
            assert(lengths.drop_last()[k] == lengths[k]);
        }
        lemma_stride_bounded(lengths.drop_last(), bound);
        assert(lengths.last() == lengths[lengths.len() - 1]);
    }
}

/// Candidates whose passphrases are those of a prefix of a packable batch
/// are packable
pub proof fn lemma_packed_prefix_fits(all: Seq<Candidate>, prefix: Seq<Candidate>)
    requires
        batch_stride(passphrase_lengths(all)) <= DEFAULT_MAX_PASSPHRASE_BYTES,
        prefix.len() <= all.len(),
        forall|j: int| 0 <= j < prefix.len() ==> (#[trigger] prefix[j]).passphrase_view() == all[j].passphrase_view(),
    ensures
        batch_stride(passphrase_lengths(prefix)) <= DEFAULT_MAX_PASSPHRASE_BYTES,
{
    assert forall|k: int| 0 <= k < passphrase_lengths(prefix).len() implies #[trigger] passphrase_lengths(prefix)[k]
        <= DEFAULT_MAX_PASSPHRASE_BYTES by {
        assert(prefix[k].passphrase_view() == all[k].passphrase_view());
        lemma_stride_at_least(passphrase_lengths(all), k);
    }
    lemma_stride_bounded(passphrase_lengths(prefix), DEFAULT_MAX_PASSPHRASE_BYTES as nat);
}

/// Each length is within the stride, which is at least one
pub proof fn lemma_stride_at_least(lengths: Seq<nat>, i: int)
    requires
        0 <= i < lengths.len(),
    ensures
        lengths[i] <= batch_stride(lengths),
        batch_stride(lengths) >= 1,
    decreases lengths.len(),
{
    if lengths.len() == 1 {
        assert(batch_stride(lengths.drop_last()) == 1);
    } else if i < lengths.len() - 1 {
        lemma_stride_at_least(lengths.drop_last(), i);
    } else {
        lemma_stride_at_least(lengths.drop_last(), 0);
    }
}


/// Cursor within a base's stream of orders
#[derive(Debug, Clone, Copy, PartialEq, Eq, Structural)]
pub enum PermutationCursor {
    /// Ranked local adjacent-swap prefix
    Local { index: usize },
    /// Exhaustive lexicographic multiset permutation rank
    Lexical { rank: u128 },
}

impl Default for PermutationCursor {
    fn default() -> (cursor: Self)
        ensures
            cursor == (PermutationCursor::Local { index: 0 }),
    {
        PermutationCursor::Local { index: 0 }
    }
}

/// Cursor pointing at the next candidate to test
#[derive(Debug, Clone, Copy, PartialEq, Eq, Structural)]
pub struct CandidateCursor {
    /// Current phase
    pub phase: SearchPhase,
    /// Replacement-base index within the phase
    pub base_index: usize,
    /// Permutation cursor within the current base
    pub permutation: PermutationCursor,
    /// Case-pattern rank within the current permutation
    pub case_rank: u128,
    /// Spacing-pattern rank within the current case pattern
    pub spacing_rank: u128,
    /// Number of verified candidates across all phases
    pub completed: u128,
}

/// The cursor at the first candidate of a search
pub open spec fn initial_cursor() -> CandidateCursor {
    CandidateCursor {
        phase: SearchPhase::WrittenLower,
        base_index: 0,
        permutation: PermutationCursor::Local { index: 0 },
        case_rank: 0,
        spacing_rank: 0,
        completed: 0,
    }
}

impl Default for CandidateCursor {
    fn default() -> (cursor: Self)
        ensures
            cursor == initial_cursor(),
    {
        CandidateCursor {
            phase: SearchPhase::WrittenLower,
            base_index: 0,
            permutation: PermutationCursor::Local { index: 0 },
            case_rank: 0,
            spacing_rank: 0,
            completed: 0,
        }
    }
}

/// Exact candidate count for one search phase
#[derive(Debug, Clone, Copy, PartialEq, Eq, Structural)]
pub struct PhaseSummary {
    /// Search phase
    pub phase: SearchPhase,
    /// Unique candidates represented by this phase
    pub count: u128,
}


/// Runtime used to derive BIP39 seeds
#[derive(Debug, Clone, Copy, PartialEq, Eq, Structural)]
pub enum BackendKind {
    /// Select the fastest verified backend available in this build
    Auto,
    /// Audited Rust BIP39 implementation, parallelized over CPU threads
    Cpu,
    /// CubeCL's CPU runtime using the same kernel as GPU backends
    CubeCpu,
    /// CubeCL's Metal runtime
    Metal,
    /// Concurrent CPU and fastest available Metal runtime
    Hybrid,
    /// CubeCL's CUDA runtime
    Cuda,
}

/// Name of a backend as written on the command line and in state files
pub open spec fn backend_name(kind: BackendKind) -> Seq<char> {
    match kind {
        BackendKind::Auto => "auto"@,
        BackendKind::Cpu => "cpu"@,
        BackendKind::CubeCpu => "cube-cpu"@,
        BackendKind::Metal => "metal"@,
        BackendKind::Hybrid => "hybrid"@,
        BackendKind::Cuda => "cuda"@,
    }
}

impl BackendKind {
    /// Name of the backend, such as `cube-cpu`
    pub fn name(self) -> (name: String)
        ensures
            name@ == backend_name(self),
    {
        match self {
            BackendKind::Auto => String::from_str("auto"),
            BackendKind::Cpu => String::from_str("cpu"),
            BackendKind::CubeCpu => String::from_str("cube-cpu"),
            BackendKind::Metal => String::from_str("metal"),
            BackendKind::Hybrid => String::from_str("hybrid"),
            BackendKind::Cuda => String::from_str("cuda"),
        }
    }
}

/// Number of candidates a backend processes per batch, never zero
#[derive(Debug, Clone, Copy, PartialEq, Eq, Structural)]
pub struct BatchSize(usize);

impl BatchSize {
    pub closed spec fn value(self) -> usize {
        self.0
    }

    /// A batch size, rejecting zero
    pub fn new(value: usize) -> (result: Result<Self, RecoverError>)
        ensures
            result is Ok <==> value > 0,
            result matches Ok(size) ==> size.value() == value,
            result matches Err(error) ==> error is InvalidSetting,
    {
        if value == 0 {
            return Err(RecoverError::InvalidSetting(String::from_str("batch size must be positive")));
        }
        Ok(BatchSize(value))
    }

    /// The batch size
    pub fn get(self) -> (value: usize)
        ensures
            value == self.value(),
    {
        self.0
    }
}

/// Accelerator threads per workgroup, never zero
#[derive(Debug, Clone, Copy, PartialEq, Eq, Structural)]
pub struct WorkgroupSize(u32);

impl WorkgroupSize {
    pub closed spec fn value(self) -> u32 {
        self.0
    }

    /// A workgroup size, rejecting zero
    pub fn new(value: u32) -> (result: Result<Self, RecoverError>)
        ensures
            result is Ok <==> value > 0,
            result matches Ok(size) ==> size.value() == value,
            result matches Err(error) ==> error is InvalidSetting,
    {
        if value == 0 {
            return Err(RecoverError::InvalidSetting(String::from_str("workgroup size must be positive")));
        }
        Ok(WorkgroupSize(value))
    }

    /// The workgroup size
    pub fn get(self) -> (value: u32)
        ensures
            value == self.value(),
    {
        self.0
    }
}

/// Percentage of a hybrid batch derived on the CPU, strictly between 0 and 100
#[derive(Debug, Clone, Copy, PartialEq, Eq, Structural)]
pub struct CpuShare(u8);

impl CpuShare {
    pub closed spec fn value(self) -> u8 {
        self.0
    }

    /// A CPU share, rejecting 0 and anything from 100 up
    pub fn try_from(percent: u8) -> (result: Result<Self, RecoverError>)
        ensures
            result is Ok <==> 1 <= percent <= 99,
            result matches Ok(share) ==> share.value() == percent,
            result matches Err(error) ==> error is InvalidSetting,
    {
        if percent == 0 || percent > 99 {
            return Err(RecoverError::InvalidSetting(String::from_str("cpu share must be between 1 and 99 percent")));
        }
        Ok(CpuShare(percent))
    }

    /// The share in percent
    pub fn percent(self) -> (percent: u8)
        ensures
            percent == self.value(),
            1 <= percent <= 99,
    {
        proof {
            use_type_invariant(self);
        }
        self.0
    }

    #[verifier::type_invariant]
    spec fn in_range(self) -> bool {
        1 <= self.0 <= 99
    }
}

/// Runtime configuration selected for a backend
#[derive(Debug, Clone, Copy, PartialEq, Eq, Structural)]
pub enum BackendConfiguration {
    /// CPU batch size
    Cpu { batch_size: BatchSize },
    /// Accelerator batch and workgroup sizes
    Cube { batch_size: BatchSize, workgroup_size: WorkgroupSize },
    /// Accelerator sizes and the CPU's share of each batch
    Hybrid { batch_size: BatchSize, workgroup_size: WorkgroupSize, cpu_share: CpuShare },
}

impl BackendConfiguration {
    /// CPU configuration
    pub fn cpu(batch_size: usize) -> (result: Result<Self, RecoverError>)
        ensures
            result is Ok <==> batch_size > 0,
            result matches Ok(c) ==> c matches BackendConfiguration::Cpu { batch_size: b } && b.value() == batch_size,
            result matches Err(error) ==> error is InvalidSetting,
    {
        Ok(BackendConfiguration::Cpu { batch_size: BatchSize::new(batch_size)? })
    }

    /// Accelerator configuration
    pub fn cube(batch_size: usize, workgroup_size: u32) -> (result: Result<Self, RecoverError>)
        ensures
            result is Ok <==> batch_size > 0 && workgroup_size > 0,
            result matches Ok(c) ==> c matches BackendConfiguration::Cube { batch_size: b, workgroup_size: w }
                && b.value() == batch_size && w.value() == workgroup_size,
            result matches Err(error) ==> error is InvalidSetting,
    {
        let batch = match BatchSize::new(batch_size) {
            Ok(b) => b,
            Err(error) => return Err(error),
        };
        let workgroup = match WorkgroupSize::new(workgroup_size) {
            Ok(w) => w,
            Err(error) => return Err(error),
        };
        Ok(BackendConfiguration::Cube { batch_size: batch, workgroup_size: workgroup })
    }

    /// Hybrid CPU and accelerator configuration
    pub fn hybrid(batch_size: usize, workgroup_size: u32, cpu_share: u8) -> (result: Result<Self, RecoverError>)
        ensures
            result is Ok <==> batch_size > 0 && workgroup_size > 0 && 1 <= cpu_share <= 99,
            result matches Ok(c) ==> c matches BackendConfiguration::Hybrid {
                batch_size: b,
                workgroup_size: w,
                cpu_share: s,
            } && b.value() == batch_size && w.value() == workgroup_size && s.value() == cpu_share,
            result matches Err(error) ==> error is InvalidSetting,
    {
        let batch = match BatchSize::new(batch_size) {
            Ok(b) => b,
            Err(error) => return Err(error),
        };
        let workgroup = match WorkgroupSize::new(workgroup_size) {
            Ok(w) => w,
            Err(error) => return Err(error),
        };
        let share = match CpuShare::try_from(cpu_share) {
            Ok(s) => s,
            Err(error) => return Err(error),
        };
        Ok(BackendConfiguration::Hybrid { batch_size: batch, workgroup_size: workgroup, cpu_share: share })
    }

    /// Batch size of any configuration
    pub fn batch_size(self) -> (size: BatchSize)
        ensures
            size == match self {
                BackendConfiguration::Cpu { batch_size } => batch_size,
                BackendConfiguration::Cube { batch_size, .. } => batch_size,
                BackendConfiguration::Hybrid { batch_size, .. } => batch_size,
            },
    {
        match self {
            BackendConfiguration::Cpu { batch_size } => batch_size,
            BackendConfiguration::Cube { batch_size, .. } => batch_size,
            BackendConfiguration::Hybrid { batch_size, .. } => batch_size,
        }
    }

    /// Workgroup size of an accelerator configuration
    pub fn workgroup_size(self) -> (size: Option<WorkgroupSize>)
        ensures
            size == match self {
                BackendConfiguration::Cpu { .. } => None,
                BackendConfiguration::Cube { workgroup_size, .. } => Some(workgroup_size),
                BackendConfiguration::Hybrid { workgroup_size, .. } => Some(workgroup_size),
            },
    {
        match self {
            BackendConfiguration::Cpu { .. } => None,
            BackendConfiguration::Cube { workgroup_size, .. } => Some(workgroup_size),
            BackendConfiguration::Hybrid { workgroup_size, .. } => Some(workgroup_size),
        }
    }

    /// CPU share of a hybrid configuration
    pub fn cpu_share(self) -> (share: Option<CpuShare>)
        ensures
            share == match self {
                BackendConfiguration::Hybrid { cpu_share, .. } => Some(cpu_share),
                _ => None,
            },
    {
        match self {
            BackendConfiguration::Hybrid { cpu_share, .. } => Some(cpu_share),
            _ => None,
        }
    }
}


/// Hexadecimal digits are ASCII, one byte each in UTF-8
pub proof fn lemma_hex_chars_ascii(text: Seq<char>)
    requires
        forall|i: int| 0 <= i < text.len() ==> hex_value(#[trigger] text[i]) is Some,
    ensures
        encode_utf8(text).len() == text.len(),
{
    assert forall|i: int| 0 <= i < text.len() implies '\0' <= #[trigger] text[i] <= '\u{7f}' by {
        assert(hex_value(text[i]) is Some);
    }
    assert(vstd::utf8::is_ascii_chars(text));
    vstd::utf8::is_ascii_chars_encode_utf8(text);
}

proof fn lemma_hex_text_digits(bytes: Seq<u8>)
    ensures
        hex_text(bytes).len() == 2 * bytes.len(),
        forall|i: int|
            0 <= i < bytes.len() ==> hex_text(bytes)[2 * i] == hex_digit(#[trigger] bytes[i] / 16) && hex_text(
                bytes,
            )[2 * i + 1] == hex_digit(bytes[i] % 16),
    decreases bytes.len(),
{
    if bytes.len() > 0 {
        let rest = bytes.drop_last();
        lemma_hex_text_digits(rest);
        assert forall|i: int| 0 <= i < bytes.len() implies hex_text(bytes)[2 * i] == hex_digit(
            #[trigger] bytes[i] / 16,
        ) && hex_text(bytes)[2 * i + 1] == hex_digit(bytes[i] % 16) by {
            if i < bytes.len() - 1 {
                assert(rest[i] == bytes[i]);
            }
        }
    }
}

proof fn lemma_hex_digit_value(value: u8)
    requires
        value < 16,
    ensures
        hex_value(hex_digit(value)) == Some(value),
{
}

/// The hexadecimal text of a fingerprint is a fingerprint text that decodes
/// to the same bytes: parsing what `to_hex` writes gives the fingerprint back
pub proof fn lemma_fingerprint_hex_round_trip(fingerprint: TargetFingerprint)
    ensures
        fingerprint_text(hex_text(fingerprint.view_bytes())),
        hex_bytes(hex_text(fingerprint.view_bytes())) == fingerprint.view_bytes(),
{
    let bytes = fingerprint.view_bytes();
    let text = hex_text(bytes);
    lemma_hex_text_digits(bytes);
    assert forall|i: int| 0 <= i < 8 implies hex_value(#[trigger] text[i]) is Some by {
        let k = i / 2;
        assert(bytes[k] == bytes[k]);
        lemma_hex_digit_value(bytes[k] / 16);
        lemma_hex_digit_value(bytes[k] % 16);
        if i % 2 == 0 {
            assert(i == 2 * k);
        } else {
            assert(i == 2 * k + 1);
        }
    }
    assert forall|k: int| 0 <= k < 4 implies #[trigger] hex_bytes(text)[k] == bytes[k] by {
        assert(bytes[k] == bytes[k]);
        lemma_hex_digit_value(bytes[k] / 16);
        lemma_hex_digit_value(bytes[k] % 16);
    }
    assert(hex_bytes(text) =~= bytes);
}

/// Four-byte BIP32 master public-key fingerprint shown by Coldcard
#[derive(Debug, Clone, Copy, PartialEq, Eq, Hash)]
pub struct TargetFingerprint([u8; 4]);

/// Text of exactly eight hexadecimal digits
pub open spec fn fingerprint_text(text: Seq<char>) -> bool {
    text.len() == 8 && forall|i: int| 0 <= i < 8 ==> hex_value(#[trigger] text[i]) is Some
}

impl TargetFingerprint {
    pub closed spec fn view_bytes(self) -> Seq<u8> {
        self.0@
    }

    /// A fingerprint from its four bytes in Coldcard display order
    pub fn from_bytes(bytes: [u8; 4]) -> (fingerprint: Self)
        ensures
            fingerprint.view_bytes() == bytes@,
    {
        TargetFingerprint(bytes)
    }

    /// Return the fingerprint bytes in Coldcard display order
    pub fn bytes(self) -> (bytes: [u8; 4])
        ensures
            bytes@ == self.view_bytes(),
    {
        self.0
    }

    /// Parse eight hexadecimal digits
    pub fn parse(text: &str) -> (result: Result<Self, RecoverError>)
        ensures
            result is Ok <==> fingerprint_text(text@),
            result matches Ok(fingerprint) ==> fingerprint.view_bytes() == hex_bytes(text@),
            result matches Err(error) ==> error matches RecoverError::InvalidFingerprint(shown) && shown@ == text@,
    {
        let decoded = if text.as_bytes().len() == 8 {
            hex_decode(text)
        } else {
            None
        };
        proof {
            if forall|i: int| 0 <= i < text@.len() ==> hex_value(#[trigger] text@[i]) is Some {
                lemma_hex_chars_ascii(text@);
            }
        }
        match decoded {
            Some(bytes) => {
                if bytes.len() != 4 {
                    return Err(RecoverError::InvalidFingerprint(owned(text)));
                }
                Ok(TargetFingerprint([bytes[0], bytes[1], bytes[2], bytes[3]]))
            },
            None => Err(RecoverError::InvalidFingerprint(owned(text))),
        }
    }

    /// The same four bytes
    pub fn same_bytes(self, other: Self) -> (same: bool)
        ensures
            same == (self.view_bytes() == other.view_bytes()),
    {
        bytes_eq(self.0.as_slice(), other.0.as_slice())
    }

    /// Eight lowercase hexadecimal digits
    pub fn to_hex(self) -> (text: String)
        ensures
            text@ == hex_text(self.view_bytes()),
    {
        hex_encode(&self.0)
    }
}

impl std::str::FromStr for TargetFingerprint {
    type Err = RecoverError;

    fn from_str(text: &str) -> (result: Result<Self, RecoverError>)
        ensures
            result is Ok <==> fingerprint_text(text@),
            result matches Ok(fingerprint) ==> fingerprint.view_bytes() == hex_bytes(text@),
            result matches Err(error) ==> error matches RecoverError::InvalidFingerprint(shown) && shown@ == text@,
    {
        TargetFingerprint::parse(text)
    }
}


/// Unicode `White_Space`: the characters that `str::trim` and
/// `str::split_whitespace` treat as whitespace
pub open spec fn is_white_space(c: char) -> bool {
    let u = c as u32;
    u == 0x20 || (0x09 <= u && u <= 0x0d) || u == 0x85 || u == 0xa0 || u == 0x1680 || (0x2000 <= u && u <= 0x200a)
        || u == 0x2028 || u == 0x2029 || u == 0x202f || u == 0x205f || u == 0x3000
}

/// Text with its leading whitespace removed
pub open spec fn trim_start_of(text: Seq<char>) -> Seq<char>
    decreases text.len(),
{
    if text.len() > 0 && is_white_space(text[0]) {
        trim_start_of(text.drop_first())
    } else {
        text
    }
}

/// Text with its trailing whitespace removed
pub open spec fn trim_end_of(text: Seq<char>) -> Seq<char>
    decreases text.len(),
{
    if text.len() > 0 && is_white_space(text.last()) {
        trim_end_of(text.drop_last())
    } else {
        text
    }
}

/// Text with leading and trailing whitespace removed
pub open spec fn trim_of(text: Seq<char>) -> Seq<char> {
    trim_end_of(trim_start_of(text))
}

/// Remove leading and trailing whitespace
///
/// Calls `str::trim`, which removes the leading and trailing characters with
/// the Unicode `White_Space` property.
#[verifier::external_body]
pub(crate) fn trimmed(text: &str) -> (result: &str)
    ensures
        result@ == trim_of(text@),
{
    text.trim()
}

/// Secret mnemonic text
#[derive(Clone)]
pub struct SecretMnemonic(String);

impl SecretMnemonic {
    pub closed spec fn view_text(&self) -> Seq<char> {
        self.0@
    }

    /// Construct a secret mnemonic from validated text
    pub fn new(value: String) -> (mnemonic: Self)
        ensures
            mnemonic.view_text() == value@,
    {
        SecretMnemonic(value)
    }

    /// Borrow the mnemonic text
    pub fn expose(&self) -> (text: &str)
        ensures
            text@ == self.view_text(),
    {
        self.0.as_str()
    }
}

/// Validated depth-zero master extended public key
#[derive(Debug, Clone, PartialEq, Eq)]
pub struct MasterXpubTarget {
    text: String,
    chain_code: [u8; 32],
    public_key: [u8; 33],
    fingerprint: [u8; 4],
}

impl MasterXpubTarget {
    pub closed spec fn text_view(&self) -> Seq<char> {
        self.text@
    }

    pub closed spec fn fingerprint_view(&self) -> Seq<u8> {
        self.fingerprint@
    }

    pub closed spec fn chain_code_view(&self) -> Seq<u8> {
        self.chain_code@
    }

    pub closed spec fn public_key_view(&self) -> Seq<u8> {
        self.public_key@
    }

    /// Parse and validate a serialized master public key
    pub fn parse(value: &str) -> (result: Result<Self, RecoverError>)
        ensures
            match result {
                Ok(target) => {
                    &&& target.text_view() == trim_of(value@)
                    &&& xpub_fields_of(trim_of(value@)) matches Ok(f) && f.0 == 0 && f.1 == seq![0u8, 0, 0, 0]
                        && f.2 == 0 && target.chain_code_view() == f.3 && target.public_key_view() == f.4
                        && target.fingerprint_view() == f.5
                },
                Err(error) => error is InvalidMasterXpub && !(xpub_fields_of(trim_of(value@)) matches Ok(f) && f.0
                    == 0 && f.1 == seq![0u8, 0, 0, 0] && f.2 == 0),
            },
    {
        let text = trimmed(value);
        let fields = match decode_xpub(text) {
            Ok(fields) => fields,
            Err(message) => return Err(RecoverError::InvalidMasterXpub(message)),
        };
        let parent = fields.parent_fingerprint;
        let root = parent[0] == 0 && parent[1] == 0 && parent[2] == 0 && parent[3] == 0;
        proof {
            if root {
                assert(parent@ =~= seq![0u8, 0, 0, 0]);
            }
        }
        if fields.depth != 0 || !root || fields.child_number != 0 {
            return Err(
                RecoverError::InvalidMasterXpub(owned("extended public key must be the depth-zero master key")),
            );
        }
        Ok(
            MasterXpubTarget {
                text: owned(text),
                chain_code: fields.chain_code,
                public_key: fields.public_key,
                fingerprint: fields.fingerprint,
            },
        )
    }

    /// A copy of the key
    pub fn copy(&self) -> (copy: Self)
        ensures
            copy == *self,
    {
        MasterXpubTarget {
            text: self.text.clone(),
            chain_code: self.chain_code,
            public_key: self.public_key,
            fingerprint: self.fingerprint,
        }
    }

    /// The same serialized key and decoded fields
    pub fn same_key(&self, other: &Self) -> (same: bool)
        ensures
            same == (self.text_view() == other.text_view() && self.chain_code_view() == other.chain_code_view()
                && self.public_key_view() == other.public_key_view() && self.fingerprint_view()
                == other.fingerprint_view()),
    {
        self.text == other.text && bytes_eq(self.chain_code.as_slice(), other.chain_code.as_slice()) && bytes_eq(
            self.public_key.as_slice(),
            other.public_key.as_slice(),
        ) && bytes_eq(self.fingerprint.as_slice(), other.fingerprint.as_slice())
    }

    /// Serialized key as parsed
    pub fn as_str(&self) -> (text: &str)
        ensures
            text@ == self.text_view(),
    {
        self.text.as_str()
    }

    /// Master public-key fingerprint in Coldcard display order
    pub fn fingerprint(&self) -> (fingerprint: [u8; 4])
        ensures
            fingerprint@ == self.fingerprint_view(),
    {
        self.fingerprint
    }

    /// Master BIP32 chain code
    pub fn chain_code(&self) -> (chain_code: [u8; 32])
        ensures
            chain_code@ == self.chain_code_view(),
    {
        self.chain_code
    }

    /// Compressed master secp256k1 public key
    pub fn public_key(&self) -> (public_key: [u8; 33])
        ensures
            public_key@ == self.public_key_view(),
    {
        self.public_key
    }
}

/// Wallet identity used to verify derived BIP39 seeds
#[derive(Debug, Clone, PartialEq, Eq)]
pub enum VerificationTarget {
    /// Compare the four-byte master fingerprint
    Fingerprint(TargetFingerprint),
    /// Filter by master chain code and confirm the complete master public key
    MasterXpub {
        /// Expected fingerprint, retained for Coldcard display and validation
        fingerprint: TargetFingerprint,
        /// Validated master public key
        master_xpub: MasterXpubTarget,
    },
}

impl VerificationTarget {
    /// Construct a target and reject a mismatched master public key
    pub fn new(fingerprint: TargetFingerprint, master_xpub: Option<MasterXpubTarget>) -> (result: Result<
        Self,
        RecoverError,
    >)
        ensures
            match master_xpub {
                None => result == Ok::<VerificationTarget, RecoverError>(VerificationTarget::Fingerprint(fingerprint)),
                Some(xpub) => if xpub.fingerprint_view() == fingerprint.view_bytes() {
                    result == Ok::<VerificationTarget, RecoverError>(
                        VerificationTarget::MasterXpub { fingerprint, master_xpub: xpub },
                    )
                } else {
                    result == Err::<VerificationTarget, RecoverError>(RecoverError::MasterXpubFingerprintMismatch)
                },
            },
    {
        let master_xpub = match master_xpub {
            None => return Ok(VerificationTarget::Fingerprint(fingerprint)),
            Some(xpub) => xpub,
        };
        let a = master_xpub.fingerprint();
        let b = fingerprint.bytes();
        let same = a[0] == b[0] && a[1] == b[1] && a[2] == b[2] && a[3] == b[3];
        proof {
            if same {
                assert(a@ =~= b@);
            }
        }
        if !same {
            return Err(RecoverError::MasterXpubFingerprintMismatch);
        }
        Ok(VerificationTarget::MasterXpub { fingerprint, master_xpub })
    }

    /// Target of a master public key, with the key's own fingerprint
    pub fn from_master_xpub(master_xpub: MasterXpubTarget) -> (target: Self)
        ensures
            target matches VerificationTarget::MasterXpub { fingerprint, master_xpub: xpub } && xpub == master_xpub
                && fingerprint.view_bytes() == master_xpub.fingerprint_view(),
    {
        let fingerprint = TargetFingerprint::from_bytes(master_xpub.fingerprint());
        VerificationTarget::MasterXpub { fingerprint, master_xpub }
    }

    /// Fingerprint of a target
    pub open spec fn fingerprint_spec(self) -> TargetFingerprint {
        match self {
            VerificationTarget::Fingerprint(f) => f,
            VerificationTarget::MasterXpub { fingerprint, .. } => fingerprint,
        }
    }

    /// Master public key of a target, if it has one
    pub open spec fn master_xpub_spec(self) -> Option<MasterXpubTarget> {
        match self {
            VerificationTarget::Fingerprint(_) => None,
            VerificationTarget::MasterXpub { master_xpub, .. } => Some(master_xpub),
        }
    }

    /// Four-byte fingerprint shown by Coldcard
    pub fn fingerprint(&self) -> (fingerprint: TargetFingerprint)
        ensures
            fingerprint == match *self {
                VerificationTarget::Fingerprint(f) => f,
                VerificationTarget::MasterXpub { fingerprint, .. } => fingerprint,
            },
    {
        match self {
            VerificationTarget::Fingerprint(f) => *f,
            VerificationTarget::MasterXpub { fingerprint, .. } => *fingerprint,
        }
    }

    /// Optional master public key for chain-code filtering
    pub fn master_xpub(&self) -> (master_xpub: Option<&MasterXpubTarget>)
        ensures
            match *self {
                VerificationTarget::Fingerprint(_) => master_xpub is None,
                VerificationTarget::MasterXpub { master_xpub: xpub, .. } => master_xpub == Some(&xpub),
            },
    {
        match self {
            VerificationTarget::Fingerprint(_) => None,
            VerificationTarget::MasterXpub { master_xpub, .. } => Some(master_xpub),
        }
    }
}

} // verus!
