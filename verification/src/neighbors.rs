//! Nearest BIP39 English words to a written token

use vstd::prelude::*;
use vstd::utf8::encode_utf8;

use crate::bytes::{bytes_eq, is_ascii_letter, is_letter_token};
use crate::text::owned;

verus! {

/// Number of words in a BIP39 word list
pub const WORD_LIST_LEN: usize = 2048;

/// Word at an index of the BIP39 English word list
pub uninterp spec fn bip39_english_word(index: usize) -> Seq<char>;

/// Damerau-Levenshtein distance between two strings, as computed by `strsim`
pub uninterp spec fn damerau_levenshtein_distance(a: Seq<char>, b: Seq<char>) -> usize;

/// A nonempty word of lowercase ASCII letters
pub open spec fn is_lowercase_word(word: Seq<char>) -> bool {
    word.len() > 0 && forall|i: int| 0 <= i < word.len() ==> 'a' <= #[trigger] word[i] <= 'z'
}

/// Word of the BIP39 English list
///
/// Reads `bip39::Language::English.word_list()`; every entry of that list
/// (`bip39/src/language/english.rs`) is a lowercase ASCII word.
#[verifier::external_body]
pub(crate) fn english_word(index: usize) -> (word: &'static str)
    requires
        index < WORD_LIST_LEN,
    ensures
        word@ == bip39_english_word(index),
        is_lowercase_word(word@),
{
    bip39::Language::English.word_list()[index]
}

/// Damerau-Levenshtein distance between two strings
///
/// Calls `strsim::damerau_levenshtein`; the contract names its result.
#[verifier::external_body]
fn edit_distance(a: &str, b: &str) -> (distance: usize)
    ensures
        distance == damerau_levenshtein_distance(a@, b@),
{
    strsim::damerau_levenshtein(a, b)
}

/// A BIP39 neighbor and its edit distance from the written token
#[derive(Debug, Clone, PartialEq, Eq)]
pub struct NeighborWord {
    /// Suggested BIP39 word
    pub word: String,
    /// Damerau-Levenshtein distance from the written token
    pub distance: usize,
}

/// Ranked BIP39 neighbors for one written token
#[derive(Debug, Clone, PartialEq, Eq)]
pub struct NeighborSuggestion {
    /// Written token
    pub written: String,
    /// Nearest other BIP39 words
    pub neighbors: Vec<NeighborWord>,
}

/// Distance from a written token to a list word
pub open spec fn word_distance(written: Seq<char>, index: int) -> int {
    damerau_levenshtein_distance(written, bip39_english_word(index as usize)) as int
}

/// A list word other than the written token itself
pub open spec fn eligible(written: Seq<char>, index: int) -> bool {
    0 <= index < WORD_LIST_LEN && bip39_english_word(index as usize) != written
}

/// Neighbors are ranked by distance, then by word-list position
pub open spec fn ranked_before(written: Seq<char>, i: int, j: int) -> bool {
    word_distance(written, i) < word_distance(written, j) || (word_distance(written, i) == word_distance(
        written,
        j,
    ) && i < j)
}

/// `ranked` lists, best first, the `count` best-ranked eligible words (all
/// of them when fewer exist)
pub open spec fn nearest_ranking(written: Seq<char>, count: nat, ranked: Seq<int>) -> bool {
    &&& ranked.len() <= count
    &&& forall|i: int| 0 <= i < ranked.len() ==> eligible(written, #[trigger] ranked[i])
    &&& forall|i: int, j: int|
        0 <= i < j < ranked.len() ==> ranked_before(written, #[trigger] ranked[i], #[trigger] ranked[j])
    &&& forall|k: int|
        eligible(written, k) && !ranked.contains(k) ==> ranked.len() == count && (ranked.len() == 0
            || ranked_before(written, ranked.last(), k))
}

/// The neighbor list holds the words and distances of a ranking
pub open spec fn neighbors_match(written: Seq<char>, neighbors: Seq<NeighborWord>, ranked: Seq<int>) -> bool {
    &&& neighbors.len() == ranked.len()
    &&& forall|i: int|
        0 <= i < ranked.len() ==> (#[trigger] neighbors[i]).word@ == bip39_english_word(ranked[i] as usize)
            && neighbors[i].distance == word_distance(written, ranked[i]) && is_lowercase_word(neighbors[i].word@)
}

/// The UTF-8 bytes of a lowercase word are lowercase ASCII letters
pub proof fn lemma_lowercase_bytes(word: Seq<char>)
    requires
        is_lowercase_word(word),
    ensures
        is_letter_token(encode_utf8(word)),
        encode_utf8(word).len() == word.len(),
{
    assert(vstd::utf8::is_ascii_chars(word));
    vstd::utf8::is_ascii_chars_encode_utf8(word);
    assert forall|i: int| 0 <= i < encode_utf8(word).len() implies is_ascii_letter(#[trigger] encode_utf8(word)[i]) by {
        assert(word[i] as u8 == encode_utf8(word)[i]);
        assert('a' <= word[i] <= 'z');
        assert(97 <= word[i] as u32 <= 122);
    }
}

fn same_text(a: &str, b: &str) -> (eq: bool)
    ensures
        eq == (a@ == b@),
{
    proof {
        vstd::utf8::encode_utf8_decode_utf8(a@);
        vstd::utf8::encode_utf8_decode_utf8(b@);
    }
    bytes_eq(a.as_bytes(), b.as_bytes())
}

/// The `count` BIP39 words nearest to a written token, by edit distance and
/// then word-list position, excluding the token itself
pub fn nearest_to(written: &String, count: usize) -> (neighbors: Vec<NeighborWord>)
    ensures
        exists|ranked: Seq<int>|
            nearest_ranking(written@, count as nat, ranked) && neighbors_match(written@, neighbors@, ranked),
{
    let mut distances: Vec<usize> = Vec::new();
    let mut largest: usize = 0;
    let mut k: usize = 0;
    while k < WORD_LIST_LEN
        invariant
            k <= WORD_LIST_LEN,
            distances@.len() == k,
            forall|j: int| 0 <= j < k ==> #[trigger] distances@[j] == word_distance(written@, j),
            forall|j: int| 0 <= j < k ==> #[trigger] distances@[j] <= largest,
        decreases WORD_LIST_LEN - k,
    {
        let d = edit_distance(written.as_str(), english_word(k));
        distances.push(d);
        if d > largest {
            largest = d;
        }
        k = k + 1;
    }
    let mut neighbors: Vec<NeighborWord> = Vec::new();
    let ghost mut ranked: Seq<int> = Seq::empty();
    let mut d: usize = 0;
    let mut done = false;
    while !done && neighbors.len() < count
        invariant
            distances@.len() == WORD_LIST_LEN,
            forall|j: int| 0 <= j < WORD_LIST_LEN ==> #[trigger] distances@[j] == word_distance(written@, j),
            forall|j: int| 0 <= j < WORD_LIST_LEN ==> #[trigger] distances@[j] <= largest,
            !done ==> d <= largest,
            neighbors_match(written@, neighbors@, ranked),
            ranked.len() <= count,
            forall|i: int| 0 <= i < ranked.len() ==> eligible(written@, #[trigger] ranked[i]),
            ranked.len() < count ==> forall|i: int|
                0 <= i < ranked.len() ==> (done || word_distance(written@, #[trigger] ranked[i]) < d),
            forall|i: int, j: int|
                0 <= i < j < ranked.len() ==> ranked_before(written@, #[trigger] ranked[i], #[trigger] ranked[j]),
            ranked.len() < count ==> forall|k: int|
                eligible(written@, k) && (done || word_distance(written@, k) < d) ==> ranked.contains(k),
            ranked.len() == count ==> forall|k: int|
                eligible(written@, k) && !ranked.contains(k) ==> ranked.len() == 0 || ranked_before(
                    written@,
                    ranked.last(),
                    k,
                ),
        decreases (if done { 0int } else { 1 + largest - d }), count - neighbors@.len(),
    {
        let mut j: usize = 0;
        while j < WORD_LIST_LEN && neighbors.len() < count
            invariant
                j <= WORD_LIST_LEN,
                d <= largest,
                !done,
                distances@.len() == WORD_LIST_LEN,
                forall|x: int| 0 <= x < WORD_LIST_LEN ==> #[trigger] distances@[x] == word_distance(written@, x),
                neighbors_match(written@, neighbors@, ranked),
                ranked.len() <= count,
                forall|i: int| 0 <= i < ranked.len() ==> eligible(written@, #[trigger] ranked[i]),
                forall|i: int|
                    0 <= i < ranked.len() ==> word_distance(written@, #[trigger] ranked[i]) < d || (
                    word_distance(written@, ranked[i]) == d && ranked[i] < j),
                forall|a: int, b: int|
                    0 <= a < b < ranked.len() ==> ranked_before(written@, #[trigger] ranked[a], #[trigger] ranked[b]),
                ranked.len() < count ==> forall|k: int|
                    eligible(written@, k) && (word_distance(written@, k) < d || (word_distance(written@, k) == d
                        && k < j)) ==> ranked.contains(k),
                ranked.len() == count ==> forall|k: int|
                    eligible(written@, k) && !ranked.contains(k) ==> ranked_before(written@, ranked.last(), k),
            decreases WORD_LIST_LEN - j,
        {
            if distances[j] == d {
                let word = english_word(j);
                if !same_text(word, written.as_str()) {
                    let ghost before = ranked;
                    neighbors.push(NeighborWord { word: owned(word), distance: d });
                    proof {
                        ranked = ranked.push(j as int);
                        assert forall|a: int, b: int|
                            0 <= a < b < ranked.len() implies ranked_before(written@, #[trigger] ranked[a], #[trigger] ranked[b]) by {
                            if b == ranked.len() - 1 {
                                assert(ranked[a] == before[a]);
                            } else {
                                assert(ranked[a] == before[a] && ranked[b] == before[b]);
                            }
                        }
                        assert forall|k: int|
                            eligible(written@, k) && (word_distance(written@, k) < d || (word_distance(written@, k)
                                == d && k < j + 1)) && ranked.len() < count implies ranked.contains(k) by {
                            if k == j {
                                assert(ranked[ranked.len() - 1] == k);
                            } else {
                                assert(before.contains(k));
                                let t = choose|t: int| 0 <= t < before.len() && before[t] == k;
                                assert(ranked[t] == k);
                            }
                        }
                        assert forall|k: int|
                            eligible(written@, k) && !ranked.contains(k) && ranked.len() == count implies ranked_before(
                                written@,
                                ranked.last(),
                                k,
                            ) by {
                            if word_distance(written@, k) < d || (word_distance(written@, k) == d && k < j) {
                                assert(before.contains(k));
                                let t = choose|t: int| 0 <= t < before.len() && before[t] == k;
                                assert(ranked[t] == k);
                            }
                            if k == j {
                                assert(ranked[ranked.len() - 1] == k);
                            }
                        }
                        assert(neighbors_match(written@, neighbors@, ranked)) by {
                            assert forall|i: int| 0 <= i < ranked.len() implies (#[trigger] neighbors@[i]).word@
                                == bip39_english_word(ranked[i] as usize) && neighbors@[i].distance == word_distance(
                                written@,
                                ranked[i],
                            ) && is_lowercase_word(neighbors@[i].word@) by {
                                if i < before.len() {
                                    assert(neighbors@[i] == old_neighbor(neighbors@, i));
                                }
                            }
                        }
                    }
                }
            }
            j = j + 1;
        }
        if neighbors.len() < count {
            proof {
                assert forall|k: int|
                    eligible(written@, k) && word_distance(written@, k) <= d implies ranked.contains(k) by {
                }
            }
            if d == largest {
                done = true;
                proof {
                    assert forall|k: int| eligible(written@, k) implies ranked.contains(k) by {
                        assert(distances@[k] <= largest);
                    }
                }
            } else {
                d = d + 1;
            }
        }
    }
    proof {
        assert(nearest_ranking(written@, count as nat, ranked));
    }
    neighbors
}

spec fn old_neighbor(neighbors: Seq<NeighborWord>, i: int) -> NeighborWord {
    neighbors[i]
}

/// Nearest BIP39 words for each written token
pub fn nearest_words(words: &[String], count: usize) -> (suggestions: Vec<NeighborSuggestion>)
    ensures
        suggestions@.len() == words@.len(),
        forall|i: int|
            0 <= i < words@.len() ==> (#[trigger] suggestions@[i]).written@ == words@[i]@ && exists|ranked: Seq<int>|
                nearest_ranking(words@[i]@, count as nat, ranked) && neighbors_match(
                    words@[i]@,
                    suggestions@[i].neighbors@,
                    ranked,
                ),
{
    let mut suggestions: Vec<NeighborSuggestion> = Vec::new();
    let mut i: usize = 0;
    while i < words.len()
        invariant
            i <= words@.len(),
            suggestions@.len() == i,
            forall|j: int|
                0 <= j < i ==> (#[trigger] suggestions@[j]).written@ == words@[j]@ && exists|ranked: Seq<int>|
                    nearest_ranking(words@[j]@, count as nat, ranked) && neighbors_match(
                        words@[j]@,
                        suggestions@[j].neighbors@,
                        ranked,
                    ),
        decreases words@.len() - i,
    {
        let written = words[i].clone();
        let neighbors = nearest_to(&written, count);
        suggestions.push(NeighborSuggestion { written, neighbors });
        i = i + 1;
    }
    suggestions
}

} // verus!
