//! Multisets of words: distinct words in byte order and their multiplicities,
//! and the lexicographic arrangements of such a multiset

use vstd::prelude::*;

use crate::bytes::{bytes_eq, bytes_less, bytes_lt, deep, lemma_bytes_lt_total, lemma_bytes_lt_transitive};
use crate::combinatorics::{
    arrangement_count, arrangements, count_sum, decrement, is_arrangement, lex_rank, rank_arrangement,
    total_count, unrank_arrangement, valid_prefix,
};
use crate::error::RecoverError;
use crate::text::{strings_bytes, utf8_all};

verus! {

/// Insert a word into a strictly increasing list of distinct words
pub open spec fn insert_sorted(keys: Seq<Seq<u8>>, word: Seq<u8>) -> Seq<Seq<u8>>
    decreases keys.len(),
{
    if keys.len() == 0 {
        seq![word]
    } else if keys[0] == word {
        keys
    } else if bytes_lt(word, keys[0]) {
        seq![word] + keys
    } else {
        seq![keys[0]] + insert_sorted(keys.drop_first(), word)
    }
}

/// Distinct words of a list, in increasing byte order
pub open spec fn distinct_words(words: Seq<Seq<u8>>) -> Seq<Seq<u8>>
    decreases words.len(),
{
    if words.len() == 0 {
        Seq::empty()
    } else {
        insert_sorted(distinct_words(words.drop_last()), words.last())
    }
}

/// Number of times a word occurs in a list
pub open spec fn occurrences(words: Seq<Seq<u8>>, word: Seq<u8>) -> nat
    decreases words.len(),
{
    if words.len() == 0 {
        0
    } else {
        occurrences(words.drop_last(), word) + if words.last() == word {
            1nat
        } else {
            0nat
        }
    }
}

/// Multiplicity of each distinct word, in the order of `distinct_words`
pub open spec fn word_counts(words: Seq<Seq<u8>>) -> Seq<usize> {
    distinct_words(words).map_values(|k: Seq<u8>| occurrences(words, k) as usize)
}

/// `p` spells `words` with symbols that index `keys`
pub open spec fn spells(keys: Seq<Seq<u8>>, p: Seq<usize>, words: Seq<Seq<u8>>) -> bool {
    &&& p.len() == words.len()
    &&& forall|i: int| 0 <= i < p.len() ==> #[trigger] p[i] < keys.len() && keys[p[i] as int] == words[i]
}

/// No word occurs twice
pub open spec fn distinct_keys(keys: Seq<Seq<u8>>) -> bool {
    forall|a: int, b: int| 0 <= a < b < keys.len() ==> #[trigger] keys[a] != #[trigger] keys[b]
}

/// Strictly increasing in byte order
pub open spec fn strictly_sorted(keys: Seq<Seq<u8>>) -> bool {
    forall|a: int, b: int| 0 <= a < b < keys.len() ==> bytes_lt(#[trigger] keys[a], #[trigger] keys[b])
}

proof fn lemma_insert_sorted_at(keys: Seq<Seq<u8>>, word: Seq<u8>, p: int)
    requires
        0 <= p <= keys.len(),
        forall|t: int| 0 <= t < p ==> bytes_lt(#[trigger] keys[t], word),
        p == keys.len() || !bytes_lt(keys[p], word),
    ensures
        p < keys.len() && keys[p] == word ==> insert_sorted(keys, word) == keys,
        !(p < keys.len() && keys[p] == word) ==> insert_sorted(keys, word) == keys.take(p).push(word) + keys.skip(
            p,
        ),
    decreases p,
{
    if p == 0 {
        if keys.len() > 0 && keys[0] != word {
            lemma_bytes_lt_total(word, keys[0]);
            assert(keys.take(0).push(word) + keys.skip(0) =~= seq![word] + keys);
        } else if keys.len() == 0 {
            assert(keys.take(0).push(word) + keys.skip(0) =~= seq![word]);
        }
    } else {
        lemma_bytes_lt_total(keys[0], word);
        let rest = keys.drop_first();
        assert forall|t: int| 0 <= t < p - 1 implies bytes_lt(#[trigger] rest[t], word) by {
            assert(rest[t] == keys[t + 1]);
        }
        lemma_insert_sorted_at(rest, word, p - 1);
        if !(p < keys.len() && keys[p] == word) {
            assert(seq![keys[0]] + (rest.take(p - 1).push(word) + rest.skip(p - 1)) =~= keys.take(p).push(word)
                + keys.skip(p));
        } else {
            assert(seq![keys[0]] + rest =~= keys);
        }
    }
}

proof fn lemma_insert_sorted_contains(keys: Seq<Seq<u8>>, word: Seq<u8>, k: Seq<u8>)
    ensures
        insert_sorted(keys, word).contains(k) <==> (keys.contains(k) || k == word),
    decreases keys.len(),
{
    let r = insert_sorted(keys, word);
    if keys.len() == 0 {
        if k == word {
            assert(r[0] == k);
        }
    } else if keys[0] == word {
        if k == word {
            assert(keys[0] == k);
        }
    } else if bytes_lt(word, keys[0]) {
        if keys.contains(k) {
            let t = choose|t: int| 0 <= t < keys.len() && keys[t] == k;
            assert(r[t + 1] == k);
        }
        if k == word {
            assert(r[0] == k);
        }
        if r.contains(k) {
            let t = choose|t: int| 0 <= t < r.len() && r[t] == k;
            if t > 0 {
                assert(keys[t - 1] == k);
            }
        }
    } else {
        let rest = keys.drop_first();
        lemma_insert_sorted_contains(rest, word, k);
        let ri = insert_sorted(rest, word);
        if keys.contains(k) {
            let t = choose|t: int| 0 <= t < keys.len() && keys[t] == k;
            if t == 0 {
                assert(r[0] == k);
            } else {
                assert(rest[t - 1] == k);
                let u = choose|u: int| 0 <= u < ri.len() && ri[u] == k;
                assert(r[u + 1] == k);
            }
        }
        if k == word {
            let u = choose|u: int| 0 <= u < ri.len() && ri[u] == k;
            assert(r[u + 1] == k);
        }
        if r.contains(k) {
            let t = choose|t: int| 0 <= t < r.len() && r[t] == k;
            if t == 0 {
                assert(keys[0] == k);
            } else {
                assert(ri[t - 1] == k);
                if rest.contains(k) {
                    let u = choose|u: int| 0 <= u < rest.len() && rest[u] == k;
                    assert(keys[u + 1] == k);
                }
            }
        }
    }
}

/// Inserting a word keeps a strictly sorted list strictly sorted
proof fn lemma_insert_sorted_sorted(keys: Seq<Seq<u8>>, word: Seq<u8>)
    requires
        strictly_sorted(keys),
    ensures
        strictly_sorted(insert_sorted(keys, word)),
    decreases keys.len(),
{
    let r = insert_sorted(keys, word);
    if keys.len() == 0 {
    } else if keys[0] == word {
    } else if bytes_lt(word, keys[0]) {
        assert forall|a: int, b: int| 0 <= a < b < r.len() implies bytes_lt(#[trigger] r[a], #[trigger] r[b]) by {
            if a == 0 {
                if b > 1 {
                    assert(bytes_lt(keys[0], keys[b - 1]));
                    lemma_bytes_lt_transitive(word, keys[0], keys[b - 1]);
                }
            } else {
                assert(bytes_lt(keys[a - 1], keys[b - 1]));
            }
        }
    } else {
        lemma_bytes_lt_total(word, keys[0]);
        let rest = keys.drop_first();
        assert(strictly_sorted(rest)) by {
            assert forall|a: int, b: int| 0 <= a < b < rest.len() implies bytes_lt(#[trigger] rest[a], #[trigger] rest[b]) by {
                assert(bytes_lt(keys[a + 1], keys[b + 1]));
            }
        }
        lemma_insert_sorted_sorted(rest, word);
        let tail = insert_sorted(rest, word);
        assert forall|t: int| 0 <= t < tail.len() implies bytes_lt(keys[0], #[trigger] tail[t]) by {
            assert(tail.contains(tail[t]));
            lemma_insert_sorted_contains(rest, word, tail[t]);
            if rest.contains(tail[t]) {
                let u = choose|u: int| 0 <= u < rest.len() && rest[u] == tail[t];
                assert(bytes_lt(keys[0], keys[u + 1]));
            }
        }
        assert forall|a: int, b: int| 0 <= a < b < r.len() implies bytes_lt(#[trigger] r[a], #[trigger] r[b]) by {
            if a == 0 {
                assert(r[b] == tail[b - 1]);
            } else {
                assert(r[a] == tail[a - 1] && r[b] == tail[b - 1]);
            }
        }
    }
}

/// The distinct words of a list are strictly sorted
pub proof fn lemma_distinct_words_sorted(words: Seq<Seq<u8>>)
    ensures
        strictly_sorted(distinct_words(words)),
    decreases words.len(),
{
    if words.len() > 0 {
        lemma_distinct_words_sorted(words.drop_last());
        lemma_insert_sorted_sorted(distinct_words(words.drop_last()), words.last());
    }
}

/// The distinct words of a list occur once each
pub proof fn lemma_distinct_words_distinct(words: Seq<Seq<u8>>)
    ensures
        distinct_keys(distinct_words(words)),
{
    lemma_distinct_words_sorted(words);
    let d = distinct_words(words);
    assert forall|a: int, b: int| 0 <= a < b < d.len() implies #[trigger] d[a] != #[trigger] d[b] by {
        assert(bytes_lt(d[a], d[b]));
        lemma_bytes_lt_total(d[a], d[b]);
    }
}


/// The distinct words are exactly the words of the list
pub proof fn lemma_distinct_contains(words: Seq<Seq<u8>>, k: Seq<u8>)
    ensures
        distinct_words(words).contains(k) <==> words.contains(k),
    decreases words.len(),
{
    if words.len() > 0 {
        lemma_distinct_contains(words.drop_last(), k);
        lemma_insert_sorted_contains(distinct_words(words.drop_last()), words.last(), k);
        if words.drop_last().contains(k) {
            let t = choose|t: int| 0 <= t < words.drop_last().len() && words.drop_last()[t] == k;
            assert(words[t] == k);
        }
        if k == words.last() {
            assert(words[words.len() - 1] == k);
        }
        if words.contains(k) {
            let t = choose|t: int| 0 <= t < words.len() && words[t] == k;
            if t < words.len() - 1 {
                assert(words.drop_last()[t] == k);
            }
        }
    }
}

proof fn lemma_occurrences_absent(words: Seq<Seq<u8>>, k: Seq<u8>)
    requires
        !words.contains(k),
    ensures
        occurrences(words, k) == 0,
    decreases words.len(),
{
    if words.len() > 0 {
        assert(words[words.len() - 1] == words.last());
        if words.drop_last().contains(k) {
            let t = choose|t: int| 0 <= t < words.drop_last().len() && words.drop_last()[t] == k;
            assert(words[t] == k);
        }
        lemma_occurrences_absent(words.drop_last(), k);
    }
}

proof fn lemma_occurrences_bound(words: Seq<Seq<u8>>, k: Seq<u8>)
    ensures
        occurrences(words, k) <= words.len(),
    decreases words.len(),
{
    if words.len() > 0 {
        lemma_occurrences_bound(words.drop_last(), k);
    }
}

/// Distinct words of a list in byte order, with their multiplicities
pub fn distinct_with_counts(words: &Vec<Vec<u8>>) -> (result: (Vec<Vec<u8>>, Vec<usize>))
    ensures
        deep(result.0@) == distinct_words(deep(words@)),
        result.1@ == word_counts(deep(words@)),
        strictly_sorted(deep(result.0@)),
        count_sum(result.1@) == words@.len(),
{
    let mut keys: Vec<Vec<u8>> = Vec::new();
    let mut counts: Vec<usize> = Vec::new();
    let mut i: usize = 0;
    let ghost all = deep(words@);
    proof {
        assert(deep(keys@) =~= distinct_words(all.take(0)));
    }
    while i < words.len()
        invariant
            i <= words@.len(),
            all == deep(words@),
            deep(keys@) == distinct_words(all.take(i as int)),
            strictly_sorted(deep(keys@)),
            counts@.len() == keys@.len(),
            forall|t: int|
                0 <= t < counts@.len() ==> #[trigger] counts@[t] == occurrences(all.take(i as int), keys@[t]@),
            forall|t: int| 0 <= t < counts@.len() ==> #[trigger] counts@[t] <= i,
            count_sum(counts@) == i,
        decreases words@.len() - i,
    {
        let word = &words[i];
        let ghost ws = all.take(i as int);
        let ghost ws1 = all.take(i + 1);
        let ghost old_keys = deep(keys@);
        let ghost old_counts = counts@;
        proof {
            assert(ws1.drop_last() =~= ws);
            assert(ws1.last() == word@);
        }
        let mut p: usize = 0;
        while p < keys.len() && bytes_less(keys[p].as_slice(), word.as_slice())
            invariant
                p <= keys@.len(),
                deep(keys@) == old_keys,
                forall|t: int| 0 <= t < p ==> bytes_lt(#[trigger] old_keys[t], word@),
            decreases keys@.len() - p,
        {
            p = p + 1;
        }
        proof {
            lemma_insert_sorted_at(old_keys, word@, p as int);
        }
        if p < keys.len() && bytes_eq(keys[p].as_slice(), word.as_slice()) {
            let c = counts[p];
            counts.set(p, c + 1);
            proof {
                crate::combinatorics::lemma_count_sum_update(old_counts, p as int, (c + 1) as usize);
                assert forall|t: int| 0 <= t < counts@.len() implies #[trigger] counts@[t] == occurrences(
                    ws1,
                    keys@[t]@,
                ) by {
                    if t != p {
                        if keys@[t]@ == word@ {
                            assert(old_keys[t] == old_keys[p as int]);
                            lemma_bytes_lt_total(old_keys[t], old_keys[p as int]);
                            if t < p {
                                assert(bytes_lt(old_keys[t], old_keys[p as int]));
                            } else {
                                assert(bytes_lt(old_keys[p as int], old_keys[t]));
                            }
                        }
                    }
                }
            }
        } else {
            let ghost not_found = word@;
            proof {
                assert forall|t: int| 0 <= t < old_keys.len() implies old_keys[t] != word@ by {
                    if t < p {
                        lemma_bytes_lt_total(old_keys[t], word@);
                    } else {
                        lemma_bytes_lt_total(word@, old_keys[p as int]);
                        lemma_bytes_lt_total(old_keys[p as int], word@);
                        if t > p {
                            lemma_bytes_lt_transitive(word@, old_keys[p as int], old_keys[t]);
                            lemma_bytes_lt_total(word@, old_keys[t]);
                        }
                    }
                }
                lemma_distinct_contains(ws, word@);
                lemma_occurrences_absent(ws, word@);
            }
            keys.insert(p, word.clone());
            counts.insert(p, 1);
            proof {
                crate::combinatorics::lemma_count_sum_insert(old_counts, p as int, 1);
                assert(deep(keys@) =~= old_keys.take(p as int).push(word@) + old_keys.skip(p as int));
                assert forall|a: int, b: int| 0 <= a < b < keys@.len() implies bytes_lt(
                    #[trigger] deep(keys@)[a],
                    #[trigger] deep(keys@)[b],
                ) by {
                    let nk = deep(keys@);
                    if b < p {
                        assert(nk[a] == old_keys[a] && nk[b] == old_keys[b]);
                    } else if b == p {
                        assert(nk[a] == old_keys[a]);
                    } else if a == p {
                        assert(nk[b] == old_keys[b - 1]);
                        lemma_bytes_lt_total(word@, old_keys[p as int]);
                        if b - 1 > p {
                            lemma_bytes_lt_transitive(word@, old_keys[p as int], old_keys[b - 1]);
                        }
                    } else if a < p {
                        assert(nk[a] == old_keys[a] && nk[b] == old_keys[b - 1]);
                    } else {
                        assert(nk[a] == old_keys[a - 1] && nk[b] == old_keys[b - 1]);
                    }
                }
                assert forall|t: int| 0 <= t < counts@.len() implies #[trigger] counts@[t] == occurrences(
                    ws1,
                    keys@[t]@,
                ) by {
                    if t < p {
                        assert(keys@[t]@ == old_keys[t]);
                        assert(counts@[t] == old_counts[t]);
                    } else if t > p {
                        assert(keys@[t]@ == old_keys[t - 1]);
                        assert(counts@[t] == old_counts[t - 1]);
                    }
                }
            }
        }
        proof {
            assert forall|t: int| 0 <= t < counts@.len() implies #[trigger] counts@[t] <= i + 1 by {
                lemma_occurrences_bound(ws1, keys@[t]@);
            }
        }
        i = i + 1;
    }
    proof {
        assert(all.take(words@.len() as int) =~= all);
        assert(counts@ =~= word_counts(all));
    }
    (keys, counts)
}

proof fn lemma_valid_prefix_symbols(counts: Seq<usize>, p: Seq<usize>)
    requires
        valid_prefix(counts, p),
    ensures
        forall|i: int| 0 <= i < p.len() ==> #[trigger] p[i] < counts.len(),
    decreases p.len(),
{
    if p.len() > 0 {
        lemma_valid_prefix_symbols(decrement(counts, p[0] as int), p.drop_first());
        assert forall|i: int| 0 <= i < p.len() implies #[trigger] p[i] < counts.len() by {
            if i > 0 {
                assert(p[i] == p.drop_first()[i - 1]);
            }
        }
    }
}

/// Words spelled by the arrangement of a multiset with the given rank
pub fn unrank_words(keys: &Vec<Vec<u8>>, counts: &Vec<usize>, total: usize, rank: u128) -> (result: Result<
    Vec<Vec<u8>>,
    RecoverError,
>)
    requires
        counts@.len() == keys@.len(),
        total == count_sum(counts@),
        rank < arrangements(counts@),
    ensures
        match result {
            Ok(out) => exists|p: Seq<usize>|
                is_arrangement(counts@, p) && lex_rank(counts@, p) == rank && spells(deep(keys@), p, deep(out@)),
            Err(error) => error == RecoverError::CountOverflow,
        },
        crate::combinatorics::spec_factorial(total as nat) <= u128::MAX ==> result is Ok,
{
    let p = unrank_arrangement(counts, total, rank)?;
    proof {
        lemma_valid_prefix_symbols(counts@, p@);
    }
    let mut out: Vec<Vec<u8>> = Vec::new();
    let mut i: usize = 0;
    while i < p.len()
        invariant
            i <= p@.len(),
            counts@.len() == keys@.len(),
            forall|j: int| 0 <= j < p@.len() ==> #[trigger] p@[j] < counts@.len(),
            out@.len() == i,
            forall|j: int| 0 <= j < i ==> #[trigger] out@[j]@ == keys@[p@[j] as int]@,
        decreases p@.len() - i,
    {
        out.push(keys[p[i]].clone());
        i = i + 1;
    }
    proof {
        assert(spells(deep(keys@), p@, deep(out@)));
    }
    Ok(out)
}

/// Position of a word in a list of words
pub fn position_of(keys: &Vec<Vec<u8>>, word: &Vec<u8>) -> (position: Option<usize>)
    ensures
        match position {
            Some(t) => t < keys@.len() && keys@[t as int]@ == word@,
            None => !deep(keys@).contains(word@),
        },
{
    let mut t: usize = 0;
    while t < keys.len()
        invariant
            t <= keys@.len(),
            forall|j: int| 0 <= j < t ==> keys@[j]@ != word@,
        decreases keys@.len() - t,
    {
        if bytes_eq(keys[t].as_slice(), word.as_slice()) {
            return Some(t);
        }
        t = t + 1;
    }
    proof {
        if deep(keys@).contains(word@) {
            let j = choose|j: int| 0 <= j < deep(keys@).len() && deep(keys@)[j] == word@;
            assert(keys@[j]@ == word@);
        }
    }
    None
}

/// Lexicographic rank of a word list among the arrangements of a multiset;
/// fails when the list uses a word outside the multiset or too often
pub fn rank_words(keys: &Vec<Vec<u8>>, counts: &Vec<usize>, total: usize, words: &Vec<Vec<u8>>) -> (result:
    Result<u128, RecoverError>)
    requires
        counts@.len() == keys@.len(),
        total == count_sum(counts@),
    ensures
        match result {
            Ok(rank) => exists|p: Seq<usize>|
                spells(deep(keys@), p, deep(words@)) && valid_prefix(counts@, p) && rank == lex_rank(counts@, p),
            Err(error) => error == RecoverError::CountOverflow,
        },
        crate::combinatorics::spec_factorial(total as nat) <= u128::MAX && distinct_keys(deep(keys@)) && (exists|
            q: Seq<usize>,
        | #[trigger] spells(deep(keys@), q, deep(words@)) && valid_prefix(counts@, q)) ==> result is Ok,
{
    let mut p: Vec<usize> = Vec::new();
    let mut i: usize = 0;
    while i < words.len()
        invariant
            i <= words@.len(),
            p@.len() == i,
            forall|j: int| 0 <= j < i ==> #[trigger] p@[j] < keys@.len() && keys@[p@[j] as int]@ == words@[j]@,
        decreases words@.len() - i,
    {
        match position_of(keys, &words[i]) {
            Some(t) => p.push(t),
            None => {
                proof {
                    if exists|q: Seq<usize>| #[trigger] spells(deep(keys@), q, deep(words@)) && valid_prefix(counts@, q) {
                        let q = choose|q: Seq<usize>| #[trigger] spells(deep(keys@), q, deep(words@)) && valid_prefix(
                            counts@,
                            q,
                        );
                        assert(deep(keys@)[q[i as int] as int] == deep(words@)[i as int]);
                        assert(deep(keys@).contains(words@[i as int]@));
                    }
                }
                return Err(RecoverError::CountOverflow);
            },
        }
        i = i + 1;
    }
    proof {
        if distinct_keys(deep(keys@)) && exists|q: Seq<usize>| #[trigger] spells(deep(keys@), q, deep(words@))
            && valid_prefix(counts@, q) {
            let q = choose|q: Seq<usize>| #[trigger] spells(deep(keys@), q, deep(words@)) && valid_prefix(counts@, q);
            assert forall|j: int| 0 <= j < p@.len() implies p@[j] == q[j] by {
                assert(deep(keys@)[q[j] as int] == deep(words@)[j]);
                assert(deep(keys@)[p@[j] as int] == deep(words@)[j]);
            }
            assert(p@ =~= q);
        }
    }
    let rank = rank_arrangement(counts, total, &p)?;
    proof {
        assert(spells(deep(keys@), p@, deep(words@)));
    }
    Ok(rank)
}

/// Number of distinct orders of a word list
pub fn word_permutation_count(words: &Vec<Vec<u8>>) -> (result: Result<u128, RecoverError>)
    ensures
        match result {
            Ok(count) => count == arrangements(word_counts(deep(words@))),
            Err(error) => error == RecoverError::CountOverflow,
        },
        result is Err <==> crate::combinatorics::spec_factorial(words@.len() as nat) > u128::MAX,
{
    let (_keys, counts) = distinct_with_counts(words);
    let length = words.len();
    assert(count_sum(counts@) == length);
    let total = match total_count(&counts) {
        Some(total) => total,
        None => return Err(RecoverError::CountOverflow),
    };
    arrangement_count(&counts, total)
}

/// The lexicographic order of a word list with the given rank, counting each
/// distinct order once
pub fn unrank_multiset_permutation(words: &Vec<String>, rank: u128) -> (result: Result<
    Vec<String>,
    RecoverError,
>)
    ensures
        match result {
            Ok(out) => {
                let ws = utf8_all(words@);
                exists|p: Seq<usize>|
                    is_arrangement(word_counts(ws), p) && lex_rank(word_counts(ws), p) == rank && spells(
                        distinct_words(ws),
                        p,
                        utf8_all(out@),
                    )
            },
            Err(error) => error == RecoverError::CountOverflow,
        },
        rank >= arrangements(word_counts(utf8_all(words@))) ==> result is Err,
        result is Ok <==> crate::combinatorics::spec_factorial(words@.len() as nat) <= u128::MAX && rank
            < arrangements(word_counts(utf8_all(words@))),
{
    let bytes = strings_bytes(words);
    let ghost ws = utf8_all(words@);
    proof {
        assert(deep(bytes@) =~= ws);
    }
    let (keys, counts) = distinct_with_counts(&bytes);
    let length = bytes.len();
    assert(count_sum(counts@) == length);
    assert(utf8_all(words@).len() == words@.len());
    let total = match total_count(&counts) {
        Some(total) => total,
        None => return Err(RecoverError::CountOverflow),
    };
    let count = arrangement_count(&counts, total)?;
    if rank >= count {
        return Err(RecoverError::CountOverflow);
    }
    let spelled = unrank_words(&keys, &counts, total, rank)?;
    proof {
        let p = choose|p: Seq<usize>|
            is_arrangement(counts@, p) && lex_rank(counts@, p) == rank && spells(deep(keys@), p, deep(spelled@));
        assert forall|j: int| 0 <= j < spelled@.len() implies ws.contains(#[trigger] spelled@[j]@) by {
            assert(deep(spelled@)[j] == spelled@[j]@);
            assert(deep(keys@)[p[j] as int] == spelled@[j]@);
            lemma_distinct_contains(ws, spelled@[j]@);
        }
    }
    let mut out: Vec<String> = Vec::new();
    let mut i: usize = 0;
    while i < spelled.len()
        invariant
            i <= spelled@.len(),
            deep(bytes@) == ws,
            bytes@.len() == words@.len(),
            forall|j: int| 0 <= j < words@.len() ==> #[trigger] bytes@[j]@ == utf8_all(words@)[j],
            deep(keys@) == distinct_words(ws),
            forall|j: int| 0 <= j < spelled@.len() ==> ws.contains(#[trigger] spelled@[j]@),
            out@.len() == i,
            forall|j: int| 0 <= j < i ==> utf8_all(out@)[j] == #[trigger] spelled@[j]@,
        decreases spelled@.len() - i,
    {
        let source = match position_of(&bytes, &spelled[i]) {
            Some(t) => t,
            None => {
                proof {
                    assert(deep(bytes@) == ws);
                }
                return Err(RecoverError::CountOverflow);
            },
        };
        out.push(words[source].clone());
        proof {
            assert(utf8_all(out@)[i as int] == bytes@[source as int]@);
        }
        i = i + 1;
    }
    proof {
        assert(utf8_all(out@) =~= deep(spelled@));
    }
    Ok(out)
}

} // verus!
