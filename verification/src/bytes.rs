//! Byte-string helpers shared by the candidate planner

use vstd::prelude::*;

verus! {

/// Lexicographic byte order, as used by `str` and `String` comparison
pub open spec fn bytes_lt(a: Seq<u8>, b: Seq<u8>) -> bool
    decreases a.len(),
{
    if a.len() == 0 {
        b.len() > 0
    } else if b.len() == 0 {
        false
    } else if a[0] != b[0] {
        a[0] < b[0]
    } else {
        bytes_lt(a.drop_first(), b.drop_first())
    }
}

/// Lexicographic order on sequences of byte strings
pub open spec fn words_lt(a: Seq<Seq<u8>>, b: Seq<Seq<u8>>) -> bool
    decreases a.len(),
{
    if a.len() == 0 {
        b.len() > 0
    } else if b.len() == 0 {
        false
    } else if a[0] != b[0] {
        bytes_lt(a[0], b[0])
    } else {
        words_lt(a.drop_first(), b.drop_first())
    }
}

/// Lexicographic order on sequences of indices
pub open spec fn indices_lt(a: Seq<usize>, b: Seq<usize>) -> bool
    decreases a.len(),
{
    if a.len() == 0 {
        b.len() > 0
    } else if b.len() == 0 {
        false
    } else if a[0] != b[0] {
        a[0] < b[0]
    } else {
        indices_lt(a.drop_first(), b.drop_first())
    }
}

pub open spec fn is_ascii_letter(b: u8) -> bool {
    (65 <= b <= 90) || (97 <= b <= 122)
}

pub open spec fn ascii_upper(b: u8) -> u8 {
    if 97 <= b <= 122 {
        (b - 32) as u8
    } else {
        b
    }
}

pub open spec fn ascii_lower(b: u8) -> u8 {
    if 65 <= b <= 90 {
        (b + 32) as u8
    } else {
        b
    }
}

/// A nonempty token made only of ASCII letters
pub open spec fn is_letter_token(word: Seq<u8>) -> bool {
    word.len() > 0 && forall|i: int| 0 <= i < word.len() ==> is_ascii_letter(#[trigger] word[i])
}

/// Concatenation of byte strings
pub open spec fn concat_bytes(words: Seq<Seq<u8>>) -> Seq<u8>
    decreases words.len(),
{
    if words.len() == 0 {
        Seq::empty()
    } else {
        concat_bytes(words.drop_last()) + words.last()
    }
}

/// Total byte length of a list of byte strings
pub open spec fn total_len(words: Seq<Seq<u8>>) -> nat
    decreases words.len(),
{
    if words.len() == 0 {
        0
    } else {
        total_len(words.drop_last()) + words.last().len()
    }
}

pub proof fn lemma_concat_len(words: Seq<Seq<u8>>)
    ensures
        concat_bytes(words).len() == total_len(words),
    decreases words.len(),
{
    if words.len() > 0 {
        lemma_concat_len(words.drop_last());
    }
}

pub fn is_ascii_letter_byte(b: u8) -> (r: bool)
    ensures
        r == is_ascii_letter(b),
{
    (65 <= b && b <= 90) || (97 <= b && b <= 122)
}

pub fn to_upper_byte(b: u8) -> (r: u8)
    ensures
        r == ascii_upper(b),
{
    if 97 <= b && b <= 122 {
        b - 32
    } else {
        b
    }
}

pub fn to_lower_byte(b: u8) -> (r: u8)
    ensures
        r == ascii_lower(b),
{
    if 65 <= b && b <= 90 {
        b + 32
    } else {
        b
    }
}

/// Byte-string equality
pub fn bytes_eq(a: &[u8], b: &[u8]) -> (eq: bool)
    ensures
        eq == (a@ == b@),
{
    if a.len() != b.len() {
        return false;
    }
    let mut i: usize = 0;
    while i < a.len()
        invariant
            a@.len() == b@.len(),
            0 <= i <= a@.len(),
            forall|j: int| 0 <= j < i ==> a@[j] == b@[j],
        decreases a@.len() - i,
    {
        if a[i] != b[i] {
            return false;
        }
        i = i + 1;
    }
    assert(a@ =~= b@);
    true
}

/// Equality of two lists of byte strings
pub fn words_eq(a: &Vec<Vec<u8>>, b: &Vec<Vec<u8>>) -> (eq: bool)
    ensures
        eq == (deep(a@) == deep(b@)),
{
    if a.len() != b.len() {
        return false;
    }
    let mut i: usize = 0;
    while i < a.len()
        invariant
            a@.len() == b@.len(),
            0 <= i <= a@.len(),
            forall|j: int| 0 <= j < i ==> a@[j]@ == b@[j]@,
        decreases a@.len() - i,
    {
        if !bytes_eq(a[i].as_slice(), b[i].as_slice()) {
            assert(deep(a@)[i as int] != deep(b@)[i as int]);
            return false;
        }
        i = i + 1;
    }
    assert(deep(a@) =~= deep(b@));
    true
}

/// The byte contents of a list of byte vectors
pub open spec fn deep(v: Seq<Vec<u8>>) -> Seq<Seq<u8>> {
    v.map_values(|w: Vec<u8>| w@)
}

/// No byte string precedes itself
pub proof fn lemma_bytes_lt_irreflexive(a: Seq<u8>)
    ensures
        !bytes_lt(a, a),
    decreases a.len(),
{
    if a.len() > 0 {
        lemma_bytes_lt_irreflexive(a.drop_first());
    }
}

/// `bytes_lt` is a strict total order: irreflexive, asymmetric, total on
/// distinct strings
pub proof fn lemma_bytes_lt_total(a: Seq<u8>, b: Seq<u8>)
    ensures
        !bytes_lt(a, a),
        bytes_lt(a, b) ==> !bytes_lt(b, a) && a != b,
        a != b ==> bytes_lt(a, b) || bytes_lt(b, a),
    decreases a.len(),
{
    lemma_bytes_lt_irreflexive(a);
    if a.len() == 0 && b.len() == 0 {
        assert(a =~= b);
    } else if a.len() > 0 && b.len() > 0 {
        lemma_bytes_lt_total(a.drop_first(), b.drop_first());
        if a[0] == b[0] && a != b {
            assert(a.drop_first() != b.drop_first()) by {
                if a.drop_first() == b.drop_first() {
                    assert(a =~= seq![a[0]] + a.drop_first());
                    assert(b =~= seq![b[0]] + b.drop_first());
                }
            }
        }
    }
}

/// `bytes_lt` is transitive
pub proof fn lemma_bytes_lt_transitive(a: Seq<u8>, b: Seq<u8>, c: Seq<u8>)
    requires
        bytes_lt(a, b),
        bytes_lt(b, c),
    ensures
        bytes_lt(a, c),
    decreases a.len(),
{
    if a.len() > 0 && b.len() > 0 && c.len() > 0 && a[0] == b[0] && b[0] == c[0] {
        lemma_bytes_lt_transitive(a.drop_first(), b.drop_first(), c.drop_first());
    }
}

proof fn lemma_bytes_lt_step(a: Seq<u8>, b: Seq<u8>, i: int)
    requires
        0 <= i <= a.len(),
        i <= b.len(),
        a.subrange(0, i) == b.subrange(0, i),
    ensures
        bytes_lt(a, b) == bytes_lt(a.subrange(i, a.len() as int), b.subrange(i, b.len() as int)),
    decreases i,
{
    if i > 0 {
        assert(a[0] == a.subrange(0, i)[0]);
        assert(b[0] == b.subrange(0, i)[0]);
        assert(a.drop_first().subrange(0, i - 1) =~= a.subrange(0, i).drop_first());
        assert(b.drop_first().subrange(0, i - 1) =~= b.subrange(0, i).drop_first());
        lemma_bytes_lt_step(a.drop_first(), b.drop_first(), i - 1);
        assert(a.drop_first().subrange(i - 1, a.len() - 1) =~= a.subrange(i, a.len() as int));
        assert(b.drop_first().subrange(i - 1, b.len() - 1) =~= b.subrange(i, b.len() as int));
    } else {
        assert(a.subrange(0, a.len() as int) =~= a);
        assert(b.subrange(0, b.len() as int) =~= b);
    }
}

/// Lexicographic byte comparison
pub fn bytes_less(a: &[u8], b: &[u8]) -> (lt: bool)
    ensures
        lt == bytes_lt(a@, b@),
{
    let mut i: usize = 0;
    while i < a.len() && i < b.len()
        invariant
            0 <= i <= a@.len(),
            i <= b@.len(),
            a@.subrange(0, i as int) == b@.subrange(0, i as int),
        decreases a@.len() - i,
    {
        if a[i] != b[i] {
            proof {
                lemma_bytes_lt_step(a@, b@, i as int);
                let sa = a@.subrange(i as int, a@.len() as int);
                let sb = b@.subrange(i as int, b@.len() as int);
                assert(sa[0] == a@[i as int]);
                assert(sb[0] == b@[i as int]);
            }
            return a[i] < b[i];
        }
        assert(a@.subrange(0, i + 1) =~= a@.subrange(0, i as int).push(a@[i as int]));
        assert(b@.subrange(0, i + 1) =~= b@.subrange(0, i as int).push(b@[i as int]));
        i = i + 1;
    }
    proof {
        lemma_bytes_lt_step(a@, b@, i as int);
    }
    i < b.len()
}


/// No index sequence precedes itself
pub proof fn lemma_indices_lt_irreflexive(a: Seq<usize>)
    ensures
        !indices_lt(a, a),
    decreases a.len(),
{
    if a.len() > 0 {
        lemma_indices_lt_irreflexive(a.drop_first());
    }
}

/// `indices_lt` is transitive
pub proof fn lemma_indices_lt_transitive(a: Seq<usize>, b: Seq<usize>, c: Seq<usize>)
    requires
        indices_lt(a, b),
        indices_lt(b, c),
    ensures
        indices_lt(a, c),
    decreases a.len(),
{
    if a.len() > 0 && b.len() > 0 && c.len() > 0 && a[0] == b[0] && b[0] == c[0] {
        lemma_indices_lt_transitive(a.drop_first(), b.drop_first(), c.drop_first());
    }
}

/// No word list precedes itself
pub proof fn lemma_words_lt_irreflexive(a: Seq<Seq<u8>>)
    ensures
        !words_lt(a, a),
    decreases a.len(),
{
    if a.len() > 0 {
        lemma_words_lt_irreflexive(a.drop_first());
    }
}

/// `words_lt` is transitive
pub proof fn lemma_words_lt_transitive(a: Seq<Seq<u8>>, b: Seq<Seq<u8>>, c: Seq<Seq<u8>>)
    requires
        words_lt(a, b),
        words_lt(b, c),
    ensures
        words_lt(a, c),
    decreases a.len(),
{
    if a.len() > 0 && b.len() > 0 && c.len() > 0 {
        if a[0] == b[0] && b[0] == c[0] {
            lemma_words_lt_transitive(a.drop_first(), b.drop_first(), c.drop_first());
        } else if a[0] != b[0] && b[0] != c[0] {
            lemma_bytes_lt_transitive(a[0], b[0], c[0]);
            lemma_bytes_lt_total(a[0], c[0]);
        }
    }
}

/// Lexicographic comparison of index sequences
pub fn indices_less(a: &[usize], b: &[usize]) -> (lt: bool)
    ensures
        lt == indices_lt(a@, b@),
{
    let mut i: usize = 0;
    proof {
        assert(a@.skip(0) =~= a@);
        assert(b@.skip(0) =~= b@);
    }
    while i < a.len() && i < b.len()
        invariant
            0 <= i <= a@.len(),
            i <= b@.len(),
            indices_lt(a@, b@) == indices_lt(a@.skip(i as int), b@.skip(i as int)),
        decreases a@.len() - i,
    {

        if a[i] != b[i] {
            proof {
                let (sa, sb) = (a@.skip(i as int), b@.skip(i as int));
                assert(sa[0] == a@[i as int] && sb[0] == b@[i as int]);
            }
            return a[i] < b[i];
        }
        proof {
            let (sa, sb) = (a@.skip(i as int), b@.skip(i as int));
            assert(sa.drop_first() =~= a@.skip(i + 1));
            assert(sb.drop_first() =~= b@.skip(i + 1));
        }
        i = i + 1;
    }
    proof {
        let (sa, sb) = (a@.skip(i as int), b@.skip(i as int));
        if i == a@.len() {
            assert(sa.len() == 0);
        } else {
            assert(sb.len() == 0);
        }
    }
    i < b.len()
}

/// Lexicographic comparison of word lists
pub fn words_less(a: &Vec<Vec<u8>>, b: &Vec<Vec<u8>>) -> (lt: bool)
    ensures
        lt == words_lt(deep(a@), deep(b@)),
{
    let mut i: usize = 0;
    proof {
        assert(deep(a@).skip(0) =~= deep(a@));
        assert(deep(b@).skip(0) =~= deep(b@));
    }
    while i < a.len() && i < b.len()
        invariant
            0 <= i <= a@.len(),
            i <= b@.len(),
            words_lt(deep(a@), deep(b@)) == words_lt(deep(a@).skip(i as int), deep(b@).skip(i as int)),
        decreases a@.len() - i,
    {
        let ghost da = deep(a@).skip(i as int);
        let ghost db = deep(b@).skip(i as int);
        if !bytes_eq(a[i].as_slice(), b[i].as_slice()) {
            proof {
                assert(da[0] == a@[i as int]@ && db[0] == b@[i as int]@);
            }
            return bytes_less(a[i].as_slice(), b[i].as_slice());
        }
        proof {
            assert(da[0] == a@[i as int]@ && db[0] == b@[i as int]@);
            assert(da.drop_first() =~= deep(a@).skip(i + 1));
            assert(db.drop_first() =~= deep(b@).skip(i + 1));
        }
        i = i + 1;
    }
    proof {
        let (da, db) = (deep(a@).skip(i as int), deep(b@).skip(i as int));
        if i == a@.len() {
            assert(da.len() == 0);
        } else {
            assert(db.len() == 0);
        }
    }
    i < b.len()
}


/// A copy of a byte string
pub fn copy_bytes(v: &Vec<u8>) -> (r: Vec<u8>)
    ensures
        r@ == v@,
{
    vstd::slice::slice_to_vec(v.as_slice())
}

/// A copy of a list of byte strings
pub fn copy_words(v: &Vec<Vec<u8>>) -> (r: Vec<Vec<u8>>)
    ensures
        deep(r@) == deep(v@),
        r@.len() == v@.len(),
{
    let mut r: Vec<Vec<u8>> = Vec::new();
    let mut i: usize = 0;
    while i < v.len()
        invariant
            i <= v@.len(),
            r@.len() == i,
            forall|j: int| 0 <= j < i ==> #[trigger] r@[j]@ == v@[j]@,
        decreases v@.len() - i,
    {
        r.push(copy_bytes(&v[i]));
        i = i + 1;
    }
    assert(deep(r@) =~= deep(v@));
    r
}

/// A copy of a list of indices
pub fn copy_indices(v: &Vec<usize>) -> (r: Vec<usize>)
    ensures
        r@ == v@,
{
    let mut r: Vec<usize> = Vec::new();
    let mut i: usize = 0;
    while i < v.len()
        invariant
            i <= v@.len(),
            r@ == v@.take(i as int),
        decreases v@.len() - i,
    {
        r.push(v[i]);
        i = i + 1;
        assert(r@ =~= v@.take(i as int));
    }
    assert(v@.take(v@.len() as int) =~= v@);
    r
}


/// `indices_lt` is total on distinct sequences and asymmetric
pub proof fn lemma_indices_lt_total(a: Seq<usize>, b: Seq<usize>)
    ensures
        a != b ==> indices_lt(a, b) || indices_lt(b, a),
        indices_lt(a, b) ==> !indices_lt(b, a) && a != b,
    decreases a.len(),
{
    lemma_indices_lt_irreflexive(a);
    if a.len() == 0 && b.len() == 0 {
        assert(a =~= b);
    } else if a.len() > 0 && b.len() > 0 {
        lemma_indices_lt_total(a.drop_first(), b.drop_first());
        if a[0] == b[0] && a != b {
            assert(a.drop_first() != b.drop_first()) by {
                if a.drop_first() == b.drop_first() {
                    assert(a =~= seq![a[0]] + a.drop_first());
                    assert(b =~= seq![b[0]] + b.drop_first());
                }
            }
        }
    }
}

/// `words_lt` is total on distinct lists and asymmetric
pub proof fn lemma_words_lt_total(a: Seq<Seq<u8>>, b: Seq<Seq<u8>>)
    ensures
        a != b ==> words_lt(a, b) || words_lt(b, a),
        words_lt(a, b) ==> !words_lt(b, a) && a != b,
    decreases a.len(),
{
    lemma_words_lt_irreflexive(a);
    if a.len() == 0 && b.len() == 0 {
        assert(a =~= b);
    } else if a.len() > 0 && b.len() > 0 {
        lemma_words_lt_total(a.drop_first(), b.drop_first());
        lemma_bytes_lt_total(a[0], b[0]);
        if a[0] == b[0] && a != b {
            assert(a.drop_first() != b.drop_first()) by {
                if a.drop_first() == b.drop_first() {
                    assert(a =~= seq![a[0]] + a.drop_first());
                    assert(b =~= seq![b[0]] + b.drop_first());
                }
            }
        }
    }
}

} // verus!
