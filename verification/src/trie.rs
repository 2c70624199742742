//! Trie of every cased form of the plan's words, used to find every way a
//! passphrase splits into words

use vstd::prelude::*;

use vstd::arithmetic::div_mod::{
    lemma_basic_div, lemma_hoist_over_denominator, lemma_mod_breakdown, lemma_mod_multiples_vanish, lemma_small_mod,
};
use vstd::arithmetic::power2::{lemma_pow2_adds, lemma_pow2_pos, lemma_pow2_unfold, pow2};

use crate::bytes::{copy_bytes, copy_words, deep, is_letter_token};
use crate::casing::{apply_pattern, transformed, transformed_word, variant_bit, variant_bit_spec, CaseVariant};
use crate::spacing::{has_space, lemma_pow2_fits, power_of_two, spaced};

verus! {

/// Adding the bit of word `j` to a mask of the earlier words keeps their
/// spaces, adds a space before word `j`, and stays below the next power of two
proof fn lemma_mask_extend(m: u128, extended: u128, j: nat)
    requires
        m < pow2(j),
        extended == m + pow2(j),
    ensures
        forall|k: nat| k < j ==> has_space(extended, k) == has_space(m, k),
        has_space(extended, j),
        !has_space(m, j),
        extended < pow2(j + 1),
{
    lemma_pow2_pos(j);
    lemma_pow2_unfold(j + 1);
    lemma_basic_div(m as int, pow2(j) as int);
    lemma_hoist_over_denominator(m as int, 1, pow2(j));
    assert forall|k: nat| k < j implies has_space(extended, k) == has_space(m, k) by {
        let gap = (j - k) as nat;
        lemma_pow2_pos(k);
        lemma_pow2_adds(k, gap);
        assert(k + gap == j);
        lemma_hoist_over_denominator(m as int, pow2(gap) as int, pow2(k));
        lemma_pow2_unfold(gap);
        let half = pow2((gap - 1) as nat) as int;
        lemma_mod_multiples_vanish(half, (m as nat / pow2(k)) as int, 2);
        assert(pow2(k + gap) == pow2(j));
        assert(pow2(gap) * pow2(k) == pow2(k) * pow2(gap)) by (nonlinear_arith);
        assert((m as nat + pow2(j)) as int == m as int + (pow2(gap) as int) * (pow2(k) as int));
    }
}

/// A mask of the earlier words has no space before word `j`
proof fn lemma_mask_keep(m: u128, j: nat)
    requires
        m < pow2(j),
    ensures
        !has_space(m, j),
        m < pow2(j + 1),
{
    lemma_pow2_pos(j);
    lemma_pow2_unfold(j + 1);
    lemma_basic_div(m as int, pow2(j) as int);
}

/// The low `j + 1` bits of a mask are its low `j` bits plus its bit `j`
proof fn lemma_mask_low_bits(mask: u128, j: nat)
    ensures
        mask as nat % pow2(j + 1) == mask as nat % pow2(j) + if has_space(mask, j) {
            pow2(j)
        } else {
            0
        },
{
    lemma_pow2_pos(j);
    lemma_pow2_unfold(j + 1);
    lemma_mod_breakdown(mask as int, pow2(j) as int, 2);
    assert(pow2(j) * 2 == pow2(j + 1));
    let q = mask as int / pow2(j) as int;
    let bit = q % 2;
    assert(bit == 0 || bit == 1);
    assert(mask as nat / pow2(j) == q);
    let scale = pow2(j) as int;
    if bit == 1 {
        assert(scale * bit == scale) by (nonlinear_arith)
            requires
                bit == 1,
        ;
    } else {
        assert(scale * bit == 0) by (nonlinear_arith)
            requires
                bit == 0,
        ;
    }
}

/// Masks that agree before every word join the words alike
proof fn lemma_spaced_agree(segments: Seq<Seq<u8>>, a: u128, b: u128)
    requires
        forall|k: nat| k < segments.len() ==> has_space(a, k) == has_space(b, k),
    ensures
        spaced(segments, a) == spaced(segments, b),
    decreases segments.len(),
{
    if segments.len() > 0 {
        lemma_spaced_agree(segments.drop_last(), a, b);
        assert(has_space(a, (segments.len() - 1) as nat) == has_space(b, (segments.len() - 1) as nat));
    }
}

/// The join of the first words begins the join of all of them, one byte or
/// more shorter for each later nonempty word
proof fn lemma_spaced_prefix(segments: Seq<Seq<u8>>, a: int, mask: u128)
    requires
        0 <= a <= segments.len(),
        forall|k: int| 0 <= k < segments.len() ==> (#[trigger] segments[k]).len() > 0,
    ensures
        spaced(segments.take(a), mask).len() + (segments.len() - a) <= spaced(segments, mask).len(),
        spaced(segments, mask).take(spaced(segments.take(a), mask).len() as int) == spaced(segments.take(a), mask),
    decreases segments.len(),
{
    if a == segments.len() {
        assert(segments.take(a) =~= segments);
    } else {
        let rest = segments.drop_last();
        assert(rest.take(a) =~= segments.take(a));
        lemma_spaced_prefix(rest, a, mask);
        let whole = spaced(segments, mask);
        let front = spaced(rest, mask);
        assert(whole.take(front.len() as int) =~= front);
        let inner = spaced(segments.take(a), mask);
        assert(whole.take(inner.len() as int) =~= front.take(inner.len() as int));
    }
}

/// Where word `j` lies in the join: after an optional space, right after the
/// join of the earlier words
proof fn lemma_next_segment(segments: Seq<Seq<u8>>, j: int, mask: u128)
    requires
        0 <= j < segments.len(),
        forall|k: int| 0 <= k < segments.len() ==> is_letter_token(#[trigger] segments[k]),
    ensures
        ({
            let whole = spaced(segments, mask);
            let offset = spaced(segments.take(j), mask).len() as int;
            let start = offset + if has_space(mask, j as nat) {
                1int
            } else {
                0int
            };
            let end = spaced(segments.take(j + 1), mask).len() as int;
            &&& end == start + segments[j].len()
            &&& offset < whole.len()
            &&& end <= whole.len()
            &&& (whole[offset] == 32u8) == has_space(mask, j as nat)
            &&& whole.subrange(start, end) == segments[j]
            &&& whole.take(end) == spaced(segments.take(j + 1), mask)
            &&& whole.take(offset) == spaced(segments.take(j), mask)
        }),
{
    assert forall|k: int| 0 <= k < segments.len() implies (#[trigger] segments[k]).len() > 0 by {
        assert(is_letter_token(segments[k]));
    }
    lemma_spaced_prefix(segments, j, mask);
    lemma_spaced_prefix(segments, j + 1, mask);
    let next = segments.take(j + 1);
    assert(next.drop_last() =~= segments.take(j));
    assert(next.last() == segments[j]);
    let whole = spaced(segments, mask);
    let before = spaced(segments.take(j), mask);
    let after = spaced(next, mask);
    let word = segments[j];
    assert(is_letter_token(word));
    assert(crate::bytes::is_ascii_letter(word[0]));
    if has_space(mask, j as nat) {
        assert(after =~= before + seq![32u8] + word);
        assert(whole[before.len() as int] == after[before.len() as int]);
        assert(whole.subrange(before.len() as int + 1, after.len() as int) =~= word) by {
            assert forall|i: int| 0 <= i < word.len() implies whole[before.len() + 1 + i] == word[i] by {
                assert(whole[before.len() + 1 + i] == after[before.len() + 1 + i]);
            }
        }
    } else {
        assert(after =~= before + Seq::<u8>::empty() + word);
        assert(whole[before.len() as int] == after[before.len() as int]);
        assert(whole.subrange(before.len() as int, after.len() as int) =~= word) by {
            assert forall|i: int| 0 <= i < word.len() implies whole[before.len() + i] == word[i] by {
                assert(whole[before.len() + i] == after[before.len() + i]);
            }
        }
    }
}

/// The case form is among the flags
pub open spec fn has_variant(flags: u8, variant: CaseVariant) -> bool {
    flags & variant_bit_spec(variant) != 0
}

/// Some case form is among the flags
pub open spec fn some_variant(flags: u8) -> bool {
    has_variant(flags, CaseVariant::Lower) || has_variant(flags, CaseVariant::Title) || has_variant(
        flags,
        CaseVariant::Upper,
    )
}

/// The flags name some case form, and the word in each case form they name
/// is these bytes
pub open spec fn spells(word: Seq<u8>, flags: u8, bytes: Seq<u8>) -> bool {
    &&& some_variant(flags)
    &&& forall|v: CaseVariant| has_variant(flags, v) ==> transformed(word, v) == bytes
}

/// Flags with one more case form: exactly the old forms and the new one
proof fn lemma_add_variant(flags: u8, variant: CaseVariant)
    ensures
        forall|v: CaseVariant| #[trigger]
            has_variant(flags | variant_bit_spec(variant), v) == (has_variant(flags, v) || v == variant),
        forall|v: CaseVariant| #[trigger] has_variant(variant_bit_spec(variant), v) == (v == variant),
{
    assert(((flags | 1u8) & 1u8 != 0) && (((flags | 1u8) & 2u8 != 0) == (flags & 2u8 != 0)) && (((flags | 1u8) & 4u8
        != 0) == (flags & 4u8 != 0)) && (((flags | 2u8) & 1u8 != 0) == (flags & 1u8 != 0)) && ((flags | 2u8) & 2u8
        != 0) && (((flags | 2u8) & 4u8 != 0) == (flags & 4u8 != 0)) && (((flags | 4u8) & 1u8 != 0) == (flags & 1u8
        != 0)) && (((flags | 4u8) & 2u8 != 0) == (flags & 2u8 != 0)) && ((flags | 4u8) & 4u8 != 0) && (1u8 & 1u8 != 0)
        && (1u8 & 2u8 == 0) && (1u8 & 4u8 == 0) && (2u8 & 1u8 == 0) && (2u8 & 2u8 != 0) && (2u8 & 4u8 == 0) && (4u8
        & 1u8 == 0) && (4u8 & 2u8 == 0) && (4u8 & 4u8 != 0)) by (bit_vector);
}

/// Word reached at a trie node, with the case variants that spell it there
#[derive(Clone, Copy)]
pub struct TokenTerminal {
    pub word_index: usize,
    pub variants: u8,
}

/// Trie node: outgoing byte edges and the words that end here
#[derive(Clone)]
pub struct TokenTrieNode {
    pub edges: Vec<(u8, usize)>,
    pub terminals: Vec<TokenTerminal>,
}

/// Byte trie over the lowercase, Title and UPPER forms of distinct words
#[derive(Clone)]
pub struct TokenTrie {
    nodes: Vec<TokenTrieNode>,
    words: Vec<Vec<u8>>,
    /// Bytes spelled on the way from the root to each node
    paths: Ghost<Seq<Seq<u8>>>,
}

/// One way to split a passphrase into words
pub struct ParsedSegmentation {
    /// Words in passphrase order
    pub words: Vec<Vec<u8>>,
    /// For each word, the case variants that spell its bytes there
    pub variants: Vec<u8>,
    /// Bit `i` is set when a space precedes word `i`
    pub spacing_mask: u128,
}

/// Words and variant flags agree in length, at most one hundred letter tokens
pub open spec fn segmentation_shape(s: ParsedSegmentation) -> bool {
    &&& s.words@.len() == s.variants@.len()
    &&& s.words@.len() <= 100
    &&& forall|k: int| 0 <= k < s.words@.len() ==> is_letter_token(#[trigger] s.words@[k]@)
}

/// Some node has an edge into node `c`
pub open spec fn has_parent(nodes: Seq<TokenTrieNode>, c: int) -> bool {
    exists|p: int, e: int|
        0 <= p < nodes.len() && 0 <= e < nodes[p].edges@.len() && (#[trigger] nodes[p].edges@[e]).1 == c
}

fn copy_flags(flags: &Vec<u8>) -> (r: Vec<u8>)
    ensures
        r@ == flags@,
{
    vstd::slice::slice_to_vec(flags.as_slice())
}

fn copy_edges(edges: &Vec<(u8, usize)>) -> (r: Vec<(u8, usize)>)
    ensures
        r@ == edges@,
{
    let mut r: Vec<(u8, usize)> = Vec::new();
    let mut i: usize = 0;
    while i < edges.len()
        invariant
            i <= edges@.len(),
            r@ == edges@.take(i as int),
        decreases edges@.len() - i,
    {
        r.push(edges[i]);
        i = i + 1;
        assert(r@ =~= edges@.take(i as int));
    }
    assert(edges@.take(edges@.len() as int) =~= edges@);
    r
}

fn copy_terminals(terminals: &Vec<TokenTerminal>) -> (r: Vec<TokenTerminal>)
    ensures
        r@ == terminals@,
{
    let mut r: Vec<TokenTerminal> = Vec::new();
    let mut i: usize = 0;
    while i < terminals.len()
        invariant
            i <= terminals@.len(),
            r@ == terminals@.take(i as int),
        decreases terminals@.len() - i,
    {
        r.push(terminals[i]);
        i = i + 1;
        assert(r@ =~= terminals@.take(i as int));
    }
    assert(terminals@.take(terminals@.len() as int) =~= terminals@);
    r
}

impl TokenTrie {
    pub closed spec fn words_view(&self) -> Seq<Seq<u8>> {
        deep(self.words@)
    }

    /// Every node other than the root hangs from an edge; an edge extends the
    /// path of its node by its byte; no two nodes share a path; and each
    /// terminal names a word that its node's path spells in the flagged forms
    pub closed spec fn well_formed(&self) -> bool {
        let nodes = self.nodes@;
        let paths = self.paths@;
        &&& nodes.len() >= 1
        &&& paths.len() == nodes.len()
        &&& paths[0] == Seq::<u8>::empty()
        &&& forall|k: int| 0 <= k < self.words@.len() ==> is_letter_token(#[trigger] self.words@[k]@)
        &&& forall|n: int, e: int|
            0 <= n < nodes.len() && 0 <= e < nodes[n].edges@.len() ==> (#[trigger] nodes[n].edges@[e]).1
                < nodes.len() && paths[nodes[n].edges@[e].1 as int] == paths[n].push(nodes[n].edges@[e].0)
        &&& forall|c: int| 0 < c < nodes.len() ==> #[trigger] has_parent(nodes, c)
        &&& forall|a: int, b: int| 0 <= a < nodes.len() && 0 <= b < nodes.len() && a != b ==> #[trigger] paths[a]
            != #[trigger] paths[b]
        &&& forall|n: int, t: int|
            0 <= n < nodes.len() && 0 <= t < nodes[n].terminals@.len() ==> (#[trigger] nodes[n].terminals@[t]).word_index
                < self.words@.len() && spells(
                self.words@[nodes[n].terminals@[t].word_index as int]@,
                nodes[n].terminals@[t].variants,
                paths[n],
            )
    }

    /// A node whose path is the bytes names the word with the case form
    pub closed spec fn present(&self, word_index: int, variant: CaseVariant, bytes: Seq<u8>) -> bool {
        exists|n: int, t: int|
            0 <= n < self.nodes@.len() && 0 <= t < self.nodes@[n].terminals@.len() && self.paths@[n] == bytes && (
            #[trigger] self.nodes@[n].terminals@[t]).word_index == word_index && has_variant(
                self.nodes@[n].terminals@[t].variants,
                variant,
            )
    }

    /// Every case form of every word is in the trie
    pub closed spec fn complete(&self) -> bool {
        forall|w: int, v: CaseVariant|
            0 <= w < self.words@.len() ==> #[trigger] self.present(w, v, transformed(self.words@[w]@, v))
    }

    /// The edge that a node's child hangs from
    proof fn lemma_child_edge(&self, node: int, child: int)
        requires
            self.well_formed(),
            0 <= node < self.nodes@.len(),
            0 <= child < self.nodes@.len(),
            self.paths@[child].len() > 0,
            self.paths@[child].drop_last() == self.paths@[node],
        ensures
            exists|e: int|
                0 <= e < self.nodes@[node].edges@.len() && (#[trigger] self.nodes@[node].edges@[e]).0
                    == self.paths@[child].last(),
    {
        assert(child != 0);
        assert(has_parent(self.nodes@, child));
        let (p, e) = choose|p: int, e: int|
            0 <= p < self.nodes@.len() && 0 <= e < self.nodes@[p].edges@.len() && (
            #[trigger] self.nodes@[p].edges@[e]).1 == child;
        let edge = self.nodes@[p].edges@[e];
        assert(self.paths@[child] == self.paths@[p].push(edge.0));
        assert(self.paths@[child].drop_last() =~= self.paths@[p]);
        if p != node {
            assert(self.paths@[p] != self.paths@[node]);
        }
    }

    /// Every prefix of a node's path is the path of a node
    proof fn lemma_prefix_node(&self, node: int, i: int)
        requires
            self.well_formed(),
            0 <= node < self.nodes@.len(),
            0 <= i <= self.paths@[node].len(),
        ensures
            exists|m: int| 0 <= m < self.nodes@.len() && #[trigger] self.paths@[m] == self.paths@[node].take(i),
        decreases self.paths@[node].len(),
    {
        if i == self.paths@[node].len() {
            assert(self.paths@[node].take(i) =~= self.paths@[node]);
        } else {
            assert(node != 0);
            assert(has_parent(self.nodes@, node));
            let (p, e) = choose|p: int, e: int|
                0 <= p < self.nodes@.len() && 0 <= e < self.nodes@[p].edges@.len() && (
                #[trigger] self.nodes@[p].edges@[e]).1 == node;
            let edge = self.nodes@[p].edges@[e];
            assert(self.paths@[node] == self.paths@[p].push(edge.0));
            assert(self.paths@[p].take(i) =~= self.paths@[node].take(i));
            self.lemma_prefix_node(p, i);
        }
    }

    /// Trie of the three case forms of each word
    pub fn new(words: Vec<Vec<u8>>) -> (trie: Self)
        requires
            forall|k: int| 0 <= k < words@.len() ==> is_letter_token(#[trigger] words@[k]@),
        ensures
            trie.well_formed(),
            trie.complete(),
            trie.words_view() == deep(words@),
    {
        let mut nodes: Vec<TokenTrieNode> = Vec::new();
        nodes.push(TokenTrieNode { edges: Vec::new(), terminals: Vec::new() });
        let paths: Ghost<Seq<Seq<u8>>> = Ghost(Seq::<Seq<u8>>::empty().push(Seq::<u8>::empty()));
        let mut trie = TokenTrie { nodes, words, paths };
        let mut word_index: usize = 0;
        while word_index < trie.words.len()
            invariant
                trie.well_formed(),
                trie.words_view() == deep(words@),
                word_index <= trie.words@.len(),
                forall|w: int, v: CaseVariant|
                    0 <= w < word_index ==> #[trigger] trie.present(w, v, transformed(trie.words@[w]@, v)),
            decreases trie.words@.len() - word_index,
        {
            proof {
                assert(is_letter_token(trie.words@[word_index as int]@));
            }
            let ghost s0 = trie;
            let lower = transformed_word(&trie.words[word_index], CaseVariant::Lower);
            trie.insert(&lower, word_index, CaseVariant::Lower);
            let ghost s1 = trie;
            let title = transformed_word(&trie.words[word_index], CaseVariant::Title);
            trie.insert(&title, word_index, CaseVariant::Title);
            let ghost s2 = trie;
            let upper = transformed_word(&trie.words[word_index], CaseVariant::Upper);
            trie.insert(&upper, word_index, CaseVariant::Upper);
            proof {
                assert forall|w: int, v: CaseVariant|
                    0 <= w < word_index + 1 implies #[trigger] trie.present(w, v, transformed(trie.words@[w]@, v)) by {
                    let b = transformed(trie.words@[w]@, v);
                    if w < word_index {
                        assert(s0.present(w, v, transformed(s0.words@[w]@, v)));
                        assert(s1.present(w, v, b));
                        assert(s2.present(w, v, b));
                    } else {
                        match v {
                            CaseVariant::Lower => {
                                assert(s1.present(w, v, b));
                                assert(s2.present(w, v, b));
                            },
                            CaseVariant::Title => {
                                assert(s2.present(w, v, b));
                            },
                            CaseVariant::Upper => {},
                        }
                    }
                }
            }
            word_index = word_index + 1;
        }
        trie
    }

    fn edge_to(&self, node: usize, byte: u8) -> (next: Option<usize>)
        requires
            self.well_formed(),
            node < self.nodes@.len(),
        ensures
            match next {
                Some(c) => c < self.nodes@.len() && self.paths@[c as int] == self.paths@[node as int].push(byte),
                None => forall|e: int|
                    0 <= e < self.nodes@[node as int].edges@.len() ==> (
                    #[trigger] self.nodes@[node as int].edges@[e]).0 != byte,
            },
    {
        let edges = &self.nodes[node].edges;
        let mut e: usize = 0;
        while e < edges.len()
            invariant
                self.well_formed(),
                node < self.nodes@.len(),
                edges == self.nodes@[node as int].edges,
                e <= edges@.len(),
                forall|f: int| 0 <= f < e ==> (#[trigger] edges@[f]).0 != byte,
            decreases edges@.len() - e,
        {
            let (b, c) = edges[e];
            if b == byte {
                proof {
                    assert(self.nodes@[node as int].edges@[e as int] == (b, c));
                }
                return Some(c);
            }
            e = e + 1;
        }
        None
    }

    /// Add the bytes of one case form of a word
    fn insert(&mut self, bytes: &Vec<u8>, word_index: usize, variant: CaseVariant)
        requires
            old(self).well_formed(),
            word_index < old(self).words@.len(),
            bytes@ == transformed(old(self).words@[word_index as int]@, variant),
        ensures
            final(self).well_formed(),
            final(self).words@ == old(self).words@,
            final(self).present(word_index as int, variant, bytes@),
            forall|w: int, v: CaseVariant, b: Seq<u8>| #[trigger]
                old(self).present(w, v, b) ==> final(self).present(w, v, b),
    {
        let ghost before = *self;
        let mut node: usize = 0;
        let mut i: usize = 0;
        proof {
            assert(bytes@.take(0) =~= Seq::<u8>::empty());
        }
        while i < bytes.len()
            invariant
                self.well_formed(),
                self.words@ == before.words@,
                before.well_formed(),
                word_index < self.words@.len(),
                i <= bytes@.len(),
                node < self.nodes@.len(),
                self.paths@[node as int] == bytes@.take(i as int),
                self.nodes@.len() >= before.nodes@.len(),
                forall|n: int|
                    0 <= n < before.nodes@.len() ==> (#[trigger] self.nodes@[n]).terminals@
                        == before.nodes@[n].terminals@ && self.paths@[n] == before.paths@[n],
                forall|n: int|
                    before.nodes@.len() <= n < self.nodes@.len() ==> (#[trigger] self.nodes@[n]).terminals@.len() == 0,
            decreases bytes@.len() - i,
        {
            let byte = bytes[i];
            proof {
                assert(bytes@.take(i + 1) =~= bytes@.take(i as int).push(byte));
            }
            match self.edge_to(node, byte) {
                Some(next) => {
                    node = next;
                },
                None => {
                    let ghost old_state = *self;
                    let next = self.nodes.len();
                    self.nodes.push(TokenTrieNode { edges: Vec::new(), terminals: Vec::new() });
                    let extended: Ghost<Seq<Seq<u8>>> = Ghost(self.paths@.push(self.paths@[node as int].push(byte)));
                    self.paths = extended;
                    let mut edges = copy_edges(&self.nodes[node].edges);
                    let terminals = copy_terminals(&self.nodes[node].terminals);
                    edges.push((byte, next));
                    let ghost pushed = self.nodes@;
                    self.nodes.set(node, TokenTrieNode { edges, terminals });
                    proof {
                        let nodes = self.nodes@;
                        let paths = self.paths@;
                        assert forall|n: int| 0 <= n < old_state.nodes@.len() implies #[trigger] paths[n]
                            == old_state.paths@[n] by {}
                        assert forall|n: int, e: int|
                            0 <= n < nodes.len() && 0 <= e < nodes[n].edges@.len() implies (
                            #[trigger] nodes[n].edges@[e]).1 < nodes.len() && paths[nodes[n].edges@[e].1 as int]
                                == paths[n].push(nodes[n].edges@[e].0) by {
                            if n != node {
                                assert(nodes[n] == pushed[n]);
                                if n < old_state.nodes@.len() {
                                    assert(nodes[n].edges@[e] == old_state.nodes@[n].edges@[e]);
                                }
                            } else if e < old_state.nodes@[n].edges@.len() {
                                assert(nodes[n].edges@[e] == old_state.nodes@[n].edges@[e]);
                            }
                        }
                        assert forall|c: int| 0 < c < nodes.len() implies #[trigger] has_parent(nodes, c) by {
                            if c == next {
                                let e = nodes[node as int].edges@.len() - 1;
                                assert(nodes[node as int].edges@[e].1 == c);
                            } else {
                                assert(has_parent(old_state.nodes@, c));
                                let (p, e) = choose|p: int, e: int|
                                    0 <= p < old_state.nodes@.len() && 0 <= e < old_state.nodes@[p].edges@.len() && (
                                    #[trigger] old_state.nodes@[p].edges@[e]).1 == c;
                                if p == node {
                                    assert(nodes[p].edges@[e] == old_state.nodes@[p].edges@[e]);
                                } else {
                                    assert(nodes[p] == old_state.nodes@[p]);
                                }
                            }
                        }
                        assert forall|a: int, b: int|
                            0 <= a < nodes.len() && 0 <= b < nodes.len() && a != b implies #[trigger] paths[a]
                            != #[trigger] paths[b] by {
                            if a == next || b == next {
                                let other = if a == next {
                                    b
                                } else {
                                    a
                                };
                                if paths[other] == paths[next as int] {
                                    assert(old_state.paths@[other].drop_last() =~= old_state.paths@[node as int]);
                                    old_state.lemma_child_edge(node as int, other);
                                }
                            } else {
                                assert(old_state.paths@[a] != old_state.paths@[b]);
                            }
                        }
                        assert forall|n: int, t: int|
                            0 <= n < nodes.len() && 0 <= t < nodes[n].terminals@.len() implies (
                            #[trigger] nodes[n].terminals@[t]).word_index < self.words@.len() && spells(
                                self.words@[nodes[n].terminals@[t].word_index as int]@,
                                nodes[n].terminals@[t].variants,
                                paths[n],
                            ) by {
                            assert(n < old_state.nodes@.len());
                            assert(nodes[n].terminals@[t] == old_state.nodes@[n].terminals@[t]);
                        }
                        assert(self.well_formed());
                    }
                    node = next;
                },
            }
            i = i + 1;
        }
        proof {
            assert(bytes@.take(i as int) =~= bytes@);
        }
        let bit = variant_bit(variant);
        let edges = copy_edges(&self.nodes[node].edges);
        let mut terminals = copy_terminals(&self.nodes[node].terminals);
        let ghost old_terminals = terminals@;
        let mut t: usize = 0;
        while t < terminals.len() && terminals[t].word_index != word_index
            invariant
                t <= terminals@.len(),
                terminals@ == old_terminals,
            decreases terminals@.len() - t,
        {
            t = t + 1;
        }
        let found = t < terminals.len();
        let ghost at = t;
        if found {
            let updated = TokenTerminal { word_index, variants: terminals[t].variants | bit };
            terminals.set(t, updated);
        } else {
            terminals.push(TokenTerminal { word_index, variants: bit });
        }
        let ghost walked = *self;
        self.nodes.set(node, TokenTrieNode { edges, terminals });
        proof {
            let nodes = self.nodes@;
            let paths = self.paths@;
            if found {
                lemma_add_variant(old_terminals[at as int].variants, variant);
            } else {
                lemma_add_variant(0u8, variant);
            }
            assert forall|n: int, e: int|
                0 <= n < nodes.len() && 0 <= e < nodes[n].edges@.len() implies (#[trigger] nodes[n].edges@[e]).1
                < nodes.len() && paths[nodes[n].edges@[e].1 as int] == paths[n].push(nodes[n].edges@[e].0) by {
                if n != node {
                    assert(nodes[n] == walked.nodes@[n]);
                } else {
                    assert(nodes[n].edges@[e] == walked.nodes@[n].edges@[e]);
                }
            }
            assert forall|c: int| 0 < c < nodes.len() implies #[trigger] has_parent(nodes, c) by {
                assert(has_parent(walked.nodes@, c));
                let (p, e) = choose|p: int, e: int|
                    0 <= p < walked.nodes@.len() && 0 <= e < walked.nodes@[p].edges@.len() && (
                    #[trigger] walked.nodes@[p].edges@[e]).1 == c;
                assert(nodes[p].edges@[e] == walked.nodes@[p].edges@[e]);
            }
            assert forall|a: int, b: int|
                0 <= a < nodes.len() && 0 <= b < nodes.len() && a != b implies #[trigger] paths[a]
                != #[trigger] paths[b] by {
                assert(walked.paths@[a] != walked.paths@[b]);
            }
            assert forall|n: int, k: int|
                0 <= n < nodes.len() && 0 <= k < nodes[n].terminals@.len() implies (
                #[trigger] nodes[n].terminals@[k]).word_index < self.words@.len() && spells(
                    self.words@[nodes[n].terminals@[k].word_index as int]@,
                    nodes[n].terminals@[k].variants,
                    paths[n],
                ) by {
                if n != node {
                    assert(nodes[n] == walked.nodes@[n]);
                } else if (found && k != at) || (!found && k < old_terminals.len()) {
                    assert(nodes[n].terminals@[k] == walked.nodes@[n].terminals@[k]);
                } else {
                    let flags = nodes[n].terminals@[k].variants;
                    if found {
                        assert(walked.nodes@[n].terminals@[k] == old_terminals[at as int]);
                        assert(flags == old_terminals[at as int].variants | variant_bit_spec(variant));
                    } else {
                        assert(flags == variant_bit_spec(variant));
                    }
                }
            }
            assert(self.well_formed());
            let k = if found { at as int } else { old_terminals.len() as int };
            assert(nodes[node as int].terminals@[k].word_index == word_index);
            if found {
                lemma_add_variant(old_terminals[at as int].variants, variant);
                assert(has_variant(old_terminals[at as int].variants | variant_bit_spec(variant), variant));
                assert(nodes[node as int].terminals@[k].variants == old_terminals[at as int].variants | variant_bit_spec(
                    variant,
                ));
            } else {
                lemma_add_variant(0u8, variant);
                assert(has_variant(variant_bit_spec(variant), variant));
                assert(nodes[node as int].terminals@[k].variants == variant_bit_spec(variant));
            }
            assert(has_variant(nodes[node as int].terminals@[k].variants, variant));
            assert(paths[node as int] == bytes@);
            assert(self.present(word_index as int, variant, bytes@));
            assert forall|w: int, v: CaseVariant, b: Seq<u8>| #[trigger]
                before.present(w, v, b) implies self.present(w, v, b) by {
                let (n, k) = choose|n: int, k: int|
                    0 <= n < before.nodes@.len() && 0 <= k < before.nodes@[n].terminals@.len() && before.paths@[n]
                        == b && (#[trigger] before.nodes@[n].terminals@[k]).word_index == w && has_variant(
                        before.nodes@[n].terminals@[k].variants,
                        v,
                    );
                assert(walked.nodes@[n].terminals@ == before.nodes@[n].terminals@);
                if n != node {
                    assert(nodes[n] == walked.nodes@[n]);
                } else if found && k == at {
                    assert(old_terminals[k] == before.nodes@[n].terminals@[k]);
                } else {
                    assert(nodes[n].terminals@[k] == walked.nodes@[n].terminals@[k]);
                }
                assert(nodes[n].terminals@[k].word_index == w);
            }
        }
    }

    /// Words of the trie, in byte order
    pub fn words(&self) -> (words: &Vec<Vec<u8>>)
        ensures
            deep(words@) == self.words_view(),
    {
        &self.words
    }

    /// The words of a well-formed trie are letter tokens
    proof fn lemma_words_are_letters(&self)
        requires
            self.well_formed(),
        ensures
            forall|k: int| 0 <= k < self.words_view().len() ==> is_letter_token(#[trigger] self.words_view()[k]),
    {
        assert forall|k: int| 0 <= k < self.words_view().len() implies is_letter_token(
            #[trigger] self.words_view()[k],
        ) by {
            assert(self.words_view()[k] == self.words@[k]@);
        }
    }

    /// The node whose path is a case form of a word names that word with that
    /// form among its terminals
    proof fn lemma_segment_terminal(&self, node: int, word: Seq<u8>, form: CaseVariant)
        requires
            self.well_formed(),
            self.complete(),
            0 <= node < self.nodes@.len(),
            self.words_view().contains(word),
            self.paths@[node] == transformed(word, form),
        ensures
            self.matched_before(node, self.nodes@[node].terminals@.len() as int, word, form),
    {
        let w = choose|w: int| 0 <= w < self.words_view().len() && self.words_view()[w] == word;
        assert(self.words_view()[w] == self.words@[w]@);
        assert(self.present(w, form, transformed(self.words@[w]@, form)));
        let (n, u) = choose|n: int, u: int|
            0 <= n < self.nodes@.len() && 0 <= u < self.nodes@[n].terminals@.len() && self.paths@[n] == transformed(
                word,
                form,
            ) && (#[trigger] self.nodes@[n].terminals@[u]).word_index == w && has_variant(
                self.nodes@[n].terminals@[u].variants,
                form,
            );
        if n != node {
            assert(self.paths@[n] != self.paths@[node]);
        }
        assert(self.words@[self.nodes@[node].terminals@[u].word_index as int]@ == word);
    }

    /// A walk that follows a prefix of a case form of a word finds an edge
    /// for the next byte of it
    proof fn lemma_walk_continues(&self, node: int, word: Seq<u8>, form: CaseVariant, walked: Seq<u8>, next: u8)
        requires
            self.well_formed(),
            self.complete(),
            0 <= node < self.nodes@.len(),
            self.words_view().contains(word),
            self.paths@[node] == walked,
            walked.len() < transformed(word, form).len(),
            transformed(word, form).take(walked.len() as int + 1) == walked.push(next),
        ensures
            exists|e: int|
                0 <= e < self.nodes@[node].edges@.len() && (#[trigger] self.nodes@[node].edges@[e]).0 == next,
    {
        let w = choose|w: int| 0 <= w < self.words_view().len() && self.words_view()[w] == word;
        assert(self.words_view()[w] == self.words@[w]@);
        assert(self.present(w, form, transformed(self.words@[w]@, form)));
        let (n, u) = choose|n: int, u: int|
            0 <= n < self.nodes@.len() && 0 <= u < self.nodes@[n].terminals@.len() && self.paths@[n] == transformed(
                word,
                form,
            ) && (#[trigger] self.nodes@[n].terminals@[u]).word_index == w && has_variant(
                self.nodes@[n].terminals@[u].variants,
                form,
            );
        self.lemma_prefix_node(n, walked.len() as int + 1);
        let m = choose|m: int|
            0 <= m < self.nodes@.len() && #[trigger] self.paths@[m] == self.paths@[n].take(walked.len() as int + 1);
        assert(self.paths@[m].drop_last() =~= walked);
        self.lemma_child_edge(node, m);
    }

    /// Pushing a word of the trie, its flags and its segment continues a split
    /// in progress to the end of the segment
    proof fn lemma_extend_progress(
        &self,
        input: Seq<u8>,
        offset: int,
        spacing_mask: u128,
        mask: u128,
        words: Seq<Vec<u8>>,
        flags: Seq<u8>,
        prefix: Seq<Seq<u8>>,
        longer_words: Seq<Vec<u8>>,
        longer_flags: Seq<u8>,
        segment: Seq<u8>,
        start: int,
        end: int,
    )
        requires
            self.in_progress(input, offset, spacing_mask, words, flags, prefix),
            words.len() < 100,
            longer_words.len() == words.len() + 1,
            longer_words.take(words.len() as int) == words,
            longer_flags == flags.push(longer_flags.last()),
            is_letter_token(longer_words.last()@),
            self.words_view().contains(longer_words.last()@),
            spells(longer_words.last()@, longer_flags.last(), segment),
            offset < input.len(),
            start == offset + if input[offset] == 32u8 {
                1int
            } else {
                0int
            },
            start < end <= input.len(),
            segment == input.subrange(start, end),
            mask < pow2((words.len() + 1) as nat),
            has_space(mask, words.len() as nat) == (input[offset] == 32u8),
            forall|k: nat| k < words.len() ==> has_space(mask, k) == has_space(spacing_mask, k),
        ensures
            self.in_progress(input, end, mask, longer_words, longer_flags, prefix.push(segment)),
    {
        let j = words.len() as int;
        let longer = prefix.push(segment);
        assert forall|k: int| 0 <= k < longer_words.len() implies is_letter_token(#[trigger] longer_words[k]@)
            && self.words_view().contains(longer_words[k]@) by {
            if k < j {
                assert(longer_words[k] == longer_words.take(j)[k]);
            }
        }
        assert forall|k: int| 0 <= k < longer.len() implies spells(
            longer_words[k]@,
            longer_flags[k],
            #[trigger] longer[k],
        ) by {
            if k < j {
                assert(longer_words[k] == longer_words.take(j)[k]);
                assert(longer[k] == prefix[k]);
            }
        }
        assert(longer.drop_last() =~= prefix);
        lemma_spaced_agree(prefix, mask, spacing_mask);
        if input[offset] == 32u8 {
            assert(input.take(end) =~= input.take(offset) + seq![32u8] + segment);
        } else {
            assert(input.take(end) =~= input.take(offset) + Seq::<u8>::empty() + segment);
        }
    }

    /// Some terminal before position `t` of the node names the word with the
    /// case form
    closed spec fn matched_before(&self, node: int, t: int, word: Seq<u8>, form: CaseVariant) -> bool {
        exists|u: int|
            0 <= u < t && self.words@[(#[trigger] self.nodes@[node].terminals@[u]).word_index as int]@ == word
                && has_variant(self.nodes@[node].terminals@[u].variants, form)
    }

    /// The facts a split in progress carries: the current words are words of
    /// the trie, spelled by their flags as the prefix segments, which joined
    /// with the mask give the input up to the offset
    closed spec fn in_progress(
        &self,
        input: Seq<u8>,
        offset: int,
        mask: u128,
        words: Seq<Vec<u8>>,
        flags: Seq<u8>,
        prefix: Seq<Seq<u8>>,
    ) -> bool {
        &&& self.well_formed()
        &&& 0 <= offset <= input.len()
        &&& words.len() == flags.len()
        &&& words.len() <= 100
        &&& forall|k: int| 0 <= k < words.len() ==> is_letter_token(#[trigger] words[k]@)
        &&& forall|k: int| 0 <= k < words.len() ==> self.words_view().contains(#[trigger] words[k]@)
        &&& prefix.len() == words.len()
        &&& forall|k: int| 0 <= k < prefix.len() ==> spells(words[k]@, flags[k], #[trigger] prefix[k])
        &&& spaced(prefix, mask) == input.take(offset)
        &&& mask < pow2(words.len() as nat)
    }

    /// Every way to split `input` into words of the trie, each word spelled in
    /// one of its case forms and optionally preceded by one space, with at
    /// most one hundred words: every split listed reads the input, and when
    /// every case form of every word is in the trie, every reading of the
    /// input is listed, with its case forms among the flags
    pub fn parse(&self, input: &Vec<u8>) -> (output: Vec<ParsedSegmentation>)
        requires
            self.well_formed(),
        ensures
            forall|i: int|
                0 <= i < output@.len() ==> segmentation_shape(#[trigger] output@[i]) && reads(
                    self.words_view(),
                    output@[i],
                    input@,
                ),
            self.complete() ==> forall|chosen: Seq<Seq<u8>>, forms: Seq<CaseVariant>, mask: u128|
                #[trigger] reading(self.words_view(), input@, chosen, forms, mask) ==> covers(output@, chosen, forms, mask),
    {
        let mut output: Vec<ParsedSegmentation> = Vec::new();
        let mut words: Vec<Vec<u8>> = Vec::new();
        let mut variants: Vec<u8> = Vec::new();
        proof {
            vstd::arithmetic::power2::lemma2_to64();
            assert(input@.take(0) =~= Seq::<u8>::empty());
            assert(spaced(Seq::<Seq<u8>>::empty(), 0) =~= Seq::<u8>::empty());
        }
        self.parse_from(input, 0, 0, &mut words, &mut variants, &mut output, Ghost(Seq::empty()));
        proof {
            if self.complete() {
                assert forall|chosen: Seq<Seq<u8>>, forms: Seq<CaseVariant>, mask: u128|
                    #[trigger] reading(self.words_view(), input@, chosen, forms, mask) implies covers(
                    output@,
                    chosen,
                    forms,
                    mask,
                ) by {
                    assert(chosen.take(0) =~= deep(Seq::<Vec<u8>>::empty()));
                    assert(apply_pattern(chosen, forms).take(0) =~= Seq::<Seq<u8>>::empty());
                    assert(mask as nat % 1 == 0);
                    assert(completes(
                        self.words_view(),
                        input@,
                        0,
                        deep(Seq::<Vec<u8>>::empty()),
                        Seq::<u8>::empty(),
                        0,
                        chosen,
                        forms,
                        mask,
                    ));
                }
            }
        }
        output
    }

    fn parse_from(
        &self,
        input: &Vec<u8>,
        offset: usize,
        spacing_mask: u128,
        words: &mut Vec<Vec<u8>>,
        variants: &mut Vec<u8>,
        output: &mut Vec<ParsedSegmentation>,
        Ghost(prefix): Ghost<Seq<Seq<u8>>>,
    )
        requires
            self.in_progress(input@, offset as int, spacing_mask, old(words)@, old(variants)@, prefix),
            forall|i: int|
                0 <= i < old(output)@.len() ==> segmentation_shape(#[trigger] old(output)@[i]) && reads(
                    self.words_view(),
                    old(output)@[i],
                    input@,
                ),
        ensures
            final(words)@ == old(words)@,
            final(variants)@ == old(variants)@,
            final(output)@.len() >= old(output)@.len(),
            final(output)@.take(old(output)@.len() as int) == old(output)@,
            forall|i: int|
                0 <= i < final(output)@.len() ==> segmentation_shape(#[trigger] final(output)@[i]) && reads(
                    self.words_view(),
                    final(output)@[i],
                    input@,
                ),
            self.complete() ==> forall|chosen: Seq<Seq<u8>>, forms: Seq<CaseVariant>, mask: u128|
                #[trigger] completes(
                    self.words_view(),
                    input@,
                    offset as int,
                    deep(old(words)@),
                    old(variants)@,
                    spacing_mask,
                    chosen,
                    forms,
                    mask,
                ) ==> covers(final(output)@, chosen, forms, mask),
        decreases input@.len() - offset,
    {
        let ghost words0 = words@;
        let ghost flags0 = variants@;
        let ghost output0 = output@;
        let ghost cur = deep(words0);
        let ghost j: int = words0.len() as int;
        let ghost trie_words = self.words_view();
        proof {
            self.lemma_words_are_letters();
        }
        if offset == input.len() {
            let copied = copy_words(words);
            let flags = copy_flags(variants);
            let entry = ParsedSegmentation { words: copied, variants: flags, spacing_mask };
            proof {
                assert forall|k: int| 0 <= k < entry.words@.len() implies entry.words@[k]@ == words0[k]@ by {
                    assert(deep(entry.words@)[k] == entry.words@[k]@);
                    assert(deep(words0)[k] == words0[k]@);
                }
                assert(deep(entry.words@) =~= cur);
                assert(input@.take(offset as int) =~= input@);
                assert(self.in_progress(input@, offset as int, spacing_mask, words0, flags0, prefix));
                assert(entry.words@.len() == words0.len());
                assert(entry.variants@ == flags0);
                assert(words0.len() == flags0.len());
                assert(words0.len() <= 100);
                assert forall|k: int| 0 <= k < entry.words@.len() implies is_letter_token(#[trigger] entry.words@[k]@) by {
                    assert(entry.words@[k]@ == words0[k]@);
                    assert(is_letter_token(words0[k]@));
                }
                assert(segmentation_shape(entry));
                assert forall|k: int| 0 <= k < prefix.len() implies trie_words.contains(entry.words@[k]@) && spells(
                    entry.words@[k]@,
                    entry.variants@[k],
                    #[trigger] prefix[k],
                ) by {
                    assert(entry.words@[k]@ == words0[k]@);
                    assert(trie_words.contains(words0[k]@));
                    assert(spells(words0[k]@, flags0[k], prefix[k]));
                    assert(entry.variants@[k] == flags0[k]);
                }
                assert(prefix.len() == entry.words@.len());
                assert(entry.spacing_mask < pow2(entry.words@.len() as nat));
                assert(spaced(prefix, entry.spacing_mask) == input@);
                assert(entry.variants@.len() == entry.words@.len());
                assert forall|k: int| 0 <= k < prefix.len() implies trie_words.contains(#[trigger] entry.words@[k]@) by {
                    assert(entry.words@[k]@ == words0[k]@);
                    assert(trie_words.contains(words0[k]@));
                }
                lemma_reads_with_intro(trie_words, entry, prefix, input@);
                if self.complete() {
                    assert forall|chosen: Seq<Seq<u8>>, forms: Seq<CaseVariant>, mask: u128|
                        #[trigger] completes(
                            trie_words,
                            input@,
                            offset as int,
                            cur,
                            flags0,
                            spacing_mask,
                            chosen,
                            forms,
                            mask,
                        ) implies lists(entry, chosen, forms, mask) by {
                        lemma_reading_next(trie_words, input@, offset as int, cur, flags0, spacing_mask, chosen, forms, mask);
                        assert(chosen.take(j) =~= chosen);
                    }
                }
            }
            output.push(entry);
            proof {
                assert(output@.take(output0.len() as int) =~= output0);
                assert forall|i: int|
                    0 <= i < output@.len() implies segmentation_shape(#[trigger] output@[i]) && reads(
                        trie_words,
                        output@[i],
                        input@,
                    ) by {
                    if i < output0.len() {
                        assert(output@[i] == output0[i]);
                    }
                }
                if self.complete() {
                    assert forall|chosen: Seq<Seq<u8>>, forms: Seq<CaseVariant>, mask: u128|
                        #[trigger] completes(
                            trie_words,
                            input@,
                            offset as int,
                            cur,
                            flags0,
                            spacing_mask,
                            chosen,
                            forms,
                            mask,
                        ) implies covers(output@, chosen, forms, mask) by {
                        assert(lists(output@[output0.len() as int], chosen, forms, mask));
                    }
                }
            }
            return;
        }
        if words.len() >= 100 {
            proof {
                assert(output@.take(output0.len() as int) =~= output0);
                if self.complete() {
                    assert forall|chosen: Seq<Seq<u8>>, forms: Seq<CaseVariant>, mask: u128|
                        #[trigger] completes(
                            trie_words,
                            input@,
                            offset as int,
                            cur,
                            flags0,
                            spacing_mask,
                            chosen,
                            forms,
                            mask,
                        ) implies covers(output@, chosen, forms, mask) by {
                        lemma_reading_next(trie_words, input@, offset as int, cur, flags0, spacing_mask, chosen, forms, mask);
                    }
                }
            }
            return;
        }
        proof {
            lemma_pow2_fits((j + 1) as nat);
            lemma_pow2_unfold((j + 1) as nat);
        }
        let spaced_here = input[offset] == 32u8;
        let (start, mask) = if spaced_here {
            (offset + 1, spacing_mask + power_of_two(words.len()))
        } else {
            (offset, spacing_mask)
        };
        proof {
            if spaced_here {
                lemma_mask_extend(spacing_mask, mask, j as nat);
            } else {
                lemma_mask_keep(spacing_mask, j as nat);
            }
        }
        if start >= input.len() {
            proof {
                assert(output@.take(output0.len() as int) =~= output0);
                if self.complete() {
                    assert forall|chosen: Seq<Seq<u8>>, forms: Seq<CaseVariant>, mask: u128|
                        #[trigger] completes(
                            trie_words,
                            input@,
                            offset as int,
                            cur,
                            flags0,
                            spacing_mask,
                            chosen,
                            forms,
                            mask,
                        ) implies covers(output@, chosen, forms, mask) by {
                        lemma_reading_next(trie_words, input@, offset as int, cur, flags0, spacing_mask, chosen, forms, mask);
                    }
                }
            }
            return;
        }
        let mut node: usize = 0;
        let mut index: usize = start;
        let mut walking = true;
        proof {
            assert(input@.subrange(start as int, start as int) =~= Seq::<u8>::empty());
            assert(output@.take(output0.len() as int) =~= output0);
            if self.complete() {
                assert forall|chosen: Seq<Seq<u8>>, forms: Seq<CaseVariant>, m: u128|
                    #[trigger] completes(trie_words, input@, offset as int, cur, flags0, spacing_mask, chosen, forms, m)
                        && reading_end(chosen, forms, m, j) <= index implies covers(output@, chosen, forms, m) by {
                    lemma_reading_next(trie_words, input@, offset as int, cur, flags0, spacing_mask, chosen, forms, m);
                }
            }
        }
        while walking && index < input.len()
            invariant
                self.in_progress(input@, offset as int, spacing_mask, words0, flags0, prefix),
                words@ == words0,
                variants@ == flags0,
                cur == deep(words0),
                j == words0.len(),
                trie_words == self.words_view(),
                forall|k: int| 0 <= k < trie_words.len() ==> is_letter_token(#[trigger] trie_words[k]),
                j < 100,
                offset < input@.len(),
                spaced_here == (input@[offset as int] == 32u8),
                start == offset + if spaced_here {
                    1int
                } else {
                    0int
                },
                start < input@.len(),
                start <= index <= input@.len(),
                mask < pow2((j + 1) as nat),
                has_space(mask, j as nat) == spaced_here,
                forall|k: nat| k < j ==> has_space(mask, k) == has_space(spacing_mask, k),
                mask as nat == spacing_mask as nat + if spaced_here {
                    pow2(j as nat)
                } else {
                    0
                },
                node < self.nodes@.len(),
                self.paths@[node as int] == input@.subrange(start as int, index as int),
                output@.len() >= output0.len(),
                output@.take(output0.len() as int) == output0,
                forall|i: int|
                    0 <= i < output@.len() ==> segmentation_shape(#[trigger] output@[i]) && reads(
                        trie_words,
                        output@[i],
                        input@,
                    ),
                self.complete() ==> forall|chosen: Seq<Seq<u8>>, forms: Seq<CaseVariant>, m: u128|
                    #[trigger] completes(trie_words, input@, offset as int, cur, flags0, spacing_mask, chosen, forms, m)
                        && reading_end(chosen, forms, m, j) <= index ==> covers(output@, chosen, forms, m),
                !walking ==> index < input@.len() && forall|e: int|
                    0 <= e < self.nodes@[node as int].edges@.len() ==> (
                    #[trigger] self.nodes@[node as int].edges@[e]).0 != input@[index as int],
            decreases input@.len() - index, (if walking {
                1int
            } else {
                0int
            }),
        {
            match self.edge_to(node, input[index]) {
                None => {
                    walking = false;
                },
                Some(next) => {
                    node = next;
                    let ghost segment = input@.subrange(start as int, index + 1);
                    proof {
                        assert(segment =~= input@.subrange(start as int, index as int).push(input@[index as int]));
                    }
                    let terminals = &self.nodes[node].terminals;
                    let next_offset = index + 1;
                    let mut t: usize = 0;
                    while t < terminals.len()
                        invariant
                            self.in_progress(input@, offset as int, spacing_mask, words0, flags0, prefix),
                            words@ == words0,
                            variants@ == flags0,
                            cur == deep(words0),
                            j == words0.len(),
                            trie_words == self.words_view(),
                            forall|k: int| 0 <= k < trie_words.len() ==> is_letter_token(#[trigger] trie_words[k]),
                            j < 100,
                            offset < input@.len(),
                            spaced_here == (input@[offset as int] == 32u8),
                            start == offset + if spaced_here {
                                1int
                            } else {
                                0int
                            },
                            start <= index < input@.len(),
                            mask < pow2((j + 1) as nat),
                            has_space(mask, j as nat) == spaced_here,
                            forall|k: nat| k < j ==> has_space(mask, k) == has_space(spacing_mask, k),
                            mask as nat == spacing_mask as nat + if spaced_here {
                                pow2(j as nat)
                            } else {
                                0
                            },
                            node < self.nodes@.len(),
                            segment == input@.subrange(start as int, index + 1),
                            self.paths@[node as int] == segment,
                            terminals == self.nodes@[node as int].terminals,
                            t <= terminals@.len(),
                            next_offset == index + 1,
                            output@.len() >= output0.len(),
                            output@.take(output0.len() as int) == output0,
                            forall|i: int|
                                0 <= i < output@.len() ==> segmentation_shape(#[trigger] output@[i]) && reads(
                                    trie_words,
                                    output@[i],
                                    input@,
                                ),
                            self.complete() ==> forall|chosen: Seq<Seq<u8>>, forms: Seq<CaseVariant>, m: u128|
                                #[trigger] completes(
                                    trie_words,
                                    input@,
                                    offset as int,
                                    cur,
                                    flags0,
                                    spacing_mask,
                                    chosen,
                                    forms,
                                    m,
                                ) && (reading_end(chosen, forms, m, j) <= index || (reading_end(chosen, forms, m, j)
                                    == index + 1 && self.matched_before(node as int, t as int, chosen[j], forms[j])))
                                    ==> covers(output@, chosen, forms, m),
                        decreases terminals@.len() - t,
                    {
                        let terminal = terminals[t];
                        let ghost word = self.words@[terminal.word_index as int]@;
                        proof {
                            assert(terminals@[t as int] == terminal);
                            assert(trie_words[terminal.word_index as int] == word);
                        }
                        words.push(copy_bytes(&self.words[terminal.word_index]));
                        variants.push(terminal.variants);
                        let ghost pushed_words = words@;
                        let ghost longer = prefix.push(segment);
                        proof {
                            assert(pushed_words.take(j) =~= words0);
                            assert(pushed_words.last()@ == word);
                            assert(spells(word, terminal.variants, segment));
                            self.lemma_extend_progress(
                                input@,
                                offset as int,
                                spacing_mask,
                                mask,
                                words0,
                                flags0,
                                prefix,
                                pushed_words,
                                variants@,
                                segment,
                                start as int,
                                index + 1,
                            );
                        }
                        let ghost before = output@;
                        self.parse_from(input, next_offset, mask, words, variants, output, Ghost(longer));
                        variants.pop();
                        words.pop();
                        proof {
                            assert(words@ =~= words0);
                            assert(variants@ =~= flags0);
                            assert(output@.take(output0.len() as int) =~= output0) by {
                                assert(output@.take(before.len() as int) == before);
                                assert forall|i: int| 0 <= i < output0.len() implies output@[i] == output0[i] by {
                                    assert(output@[i] == before[i]);
                                    assert(before[i] == output0[i]);
                                }
                            }
                            if self.complete() {
                                assert forall|chosen: Seq<Seq<u8>>, forms: Seq<CaseVariant>, m: u128|
                                    #[trigger] completes(
                                        trie_words,
                                        input@,
                                        offset as int,
                                        cur,
                                        flags0,
                                        spacing_mask,
                                        chosen,
                                        forms,
                                        m,
                                    ) && (reading_end(chosen, forms, m, j) <= index || (reading_end(
                                        chosen,
                                        forms,
                                        m,
                                        j,
                                    ) == index + 1 && self.matched_before(
                                        node as int,
                                        t + 1,
                                        chosen[j],
                                        forms[j],
                                    ))) implies covers(output@, chosen, forms, m) by {
                                    lemma_covers_kept(before, output@, chosen, forms, m);
                                    if reading_end(chosen, forms, m, j) == index + 1 && !self.matched_before(
                                        node as int,
                                        t as int,
                                        chosen[j],
                                        forms[j],
                                    ) {
                                        let u = choose|u: int|
                                            0 <= u < t + 1 && self.words@[(#[trigger] self.nodes@[node as int].terminals@[u]).word_index as int]@
                                                == chosen[j] && has_variant(
                                                self.nodes@[node as int].terminals@[u].variants,
                                                forms[j],
                                            );
                                        assert(u == t);
                                        assert(deep(pushed_words) =~= cur.push(chosen[j]));
                                        lemma_child_completion(
                                            trie_words,
                                            input@,
                                            offset as int,
                                            cur,
                                            flags0,
                                            spacing_mask,
                                            mask,
                                            chosen,
                                            forms,
                                            m,
                                            deep(pushed_words),
                                            flags0.push(terminal.variants),
                                            index + 1,
                                        );
                                    }
                                }
                            }
                        }
                        t = t + 1;
                    }
                    proof {
                        if self.complete() {
                            assert forall|chosen: Seq<Seq<u8>>, forms: Seq<CaseVariant>, m: u128|
                                #[trigger] completes(
                                    trie_words,
                                    input@,
                                    offset as int,
                                    cur,
                                    flags0,
                                    spacing_mask,
                                    chosen,
                                    forms,
                                    m,
                                ) && reading_end(chosen, forms, m, j) <= index + 1 implies covers(
                                output@,
                                chosen,
                                forms,
                                m,
                            ) by {
                                if reading_end(chosen, forms, m, j) == index + 1 {
                                    lemma_reading_next(
                                        trie_words,
                                        input@,
                                        offset as int,
                                        cur,
                                        flags0,
                                        spacing_mask,
                                        chosen,
                                        forms,
                                        m,
                                    );
                                    assert(self.paths@[node as int] == transformed(chosen[j], forms[j]));
                                    self.lemma_segment_terminal(node as int, chosen[j], forms[j]);
                                }
                            }
                        }
                    }
                    index = index + 1;
                },
            }
        }
        proof {
            if self.complete() {
                assert forall|chosen: Seq<Seq<u8>>, forms: Seq<CaseVariant>, m: u128|
                    #[trigger] completes(
                        trie_words,
                        input@,
                        offset as int,
                        cur,
                        flags0,
                        spacing_mask,
                        chosen,
                        forms,
                        m,
                    ) implies covers(output@, chosen, forms, m) by {
                    lemma_reading_next(trie_words, input@, offset as int, cur, flags0, spacing_mask, chosen, forms, m);
                    if reading_end(chosen, forms, m, j) > index {
                        assert(!walking);
                        let whole = transformed(chosen[j], forms[j]);
                        assert(whole.take(index - start + 1) =~= input@.subrange(start as int, index as int).push(
                            input@[index as int],
                        ));
                        self.lemma_walk_continues(
                            node as int,
                            chosen[j],
                            forms[j],
                            input@.subrange(start as int, index as int),
                            input@[index as int],
                        );
                    }
                }
            }
        }
    }
}

/// The segments of a split, each spelled by its word in the flagged case
/// forms, join with the split's spaces into the input
pub open spec fn reads_with(
    words: Seq<Seq<u8>>,
    s: ParsedSegmentation,
    segments: Seq<Seq<u8>>,
    input: Seq<u8>,
) -> bool {
    &&& segments.len() == s.words@.len()
    &&& s.variants@.len() == s.words@.len()
    &&& s.spacing_mask < pow2(s.words@.len() as nat)
    &&& forall|k: int|
        0 <= k < segments.len() ==> words.contains(s.words@[k]@) && spells(
            s.words@[k]@,
            s.variants@[k],
            #[trigger] segments[k],
        )
    &&& spaced(segments, s.spacing_mask) == input
}

/// A split reads the input: some segments spelled by its words join into it
pub open spec fn reads(words: Seq<Seq<u8>>, s: ParsedSegmentation, input: Seq<u8>) -> bool {
    exists|segments: Seq<Seq<u8>>| #[trigger] reads_with(words, s, segments, input)
}

/// At most one hundred of the given words, in the chosen case forms and
/// joined with the spaces of the mask, give the input
pub open spec fn reading(
    words: Seq<Seq<u8>>,
    input: Seq<u8>,
    chosen: Seq<Seq<u8>>,
    forms: Seq<CaseVariant>,
    mask: u128,
) -> bool {
    &&& chosen.len() == forms.len()
    &&& chosen.len() <= 100
    &&& forall|k: int| 0 <= k < chosen.len() ==> words.contains(#[trigger] chosen[k])
    &&& mask < pow2(chosen.len() as nat)
    &&& spaced(apply_pattern(chosen, forms), mask) == input
}

/// The split lists these words and this mask, with each chosen case form
/// among its word's flags
pub open spec fn lists(s: ParsedSegmentation, chosen: Seq<Seq<u8>>, forms: Seq<CaseVariant>, mask: u128) -> bool {
    &&& deep(s.words@) == chosen
    &&& s.variants@.len() == forms.len()
    &&& s.spacing_mask == mask
    &&& forall|k: int| 0 <= k < forms.len() ==> has_variant(#[trigger] s.variants@[k], forms[k])
}

/// The conditions of a split reading the input through segments
proof fn lemma_reads_with_intro(words: Seq<Seq<u8>>, s: ParsedSegmentation, segments: Seq<Seq<u8>>, input: Seq<u8>)
    requires
        segments.len() == s.words@.len(),
        s.variants@.len() == s.words@.len(),
        s.spacing_mask < pow2(s.words@.len() as nat),
        forall|k: int| 0 <= k < segments.len() ==> words.contains(#[trigger] s.words@[k]@),
        forall|k: int| 0 <= k < segments.len() ==> spells(s.words@[k]@, s.variants@[k], #[trigger] segments[k]),
        spaced(segments, s.spacing_mask) == input,
    ensures
        reads_with(words, s, segments, input),
{
    assert forall|k: int| 0 <= k < segments.len() implies words.contains(s.words@[k]@) && spells(
        s.words@[k]@,
        s.variants@[k],
        #[trigger] segments[k],
    ) by {
        assert(words.contains(s.words@[k]@));
    }
}

/// Some split of the output lists the reading
pub open spec fn covers(
    output: Seq<ParsedSegmentation>,
    chosen: Seq<Seq<u8>>,
    forms: Seq<CaseVariant>,
    mask: u128,
) -> bool {
    exists|i: int| 0 <= i < output.len() && #[trigger] lists(output[i], chosen, forms, mask)
}

/// A reading that continues the current words with their flags and the
/// current mask, whose first words join into the input up to the offset
pub open spec fn completes(
    words: Seq<Seq<u8>>,
    input: Seq<u8>,
    offset: int,
    current: Seq<Seq<u8>>,
    flags: Seq<u8>,
    current_mask: u128,
    chosen: Seq<Seq<u8>>,
    forms: Seq<CaseVariant>,
    mask: u128,
) -> bool {
    &&& reading(words, input, chosen, forms, mask)
    &&& current.len() <= chosen.len()
    &&& chosen.take(current.len() as int) == current
    &&& forall|k: int| 0 <= k < current.len() ==> has_variant(#[trigger] flags[k], forms[k])
    &&& mask as nat % pow2(current.len() as nat) == current_mask as nat
    &&& spaced(apply_pattern(chosen, forms).take(current.len() as int), mask) == input.take(offset)
}

/// Length of the join of the first `j + 1` words of a reading
pub open spec fn reading_end(chosen: Seq<Seq<u8>>, forms: Seq<CaseVariant>, mask: u128, j: int) -> int {
    spaced(apply_pattern(chosen, forms).take(j + 1), mask).len() as int
}

/// What a reading that continues the current words says about its next word:
/// it has one exactly when input remains, then that word starts after the
/// offset and an optional space, and the mask's next bit is that space
proof fn lemma_reading_next(
    words: Seq<Seq<u8>>,
    input: Seq<u8>,
    offset: int,
    current: Seq<Seq<u8>>,
    flags: Seq<u8>,
    current_mask: u128,
    chosen: Seq<Seq<u8>>,
    forms: Seq<CaseVariant>,
    mask: u128,
)
    requires
        completes(words, input, offset, current, flags, current_mask, chosen, forms, mask),
        forall|k: int| 0 <= k < words.len() ==> is_letter_token(#[trigger] words[k]),
        0 <= offset <= input.len(),
    ensures
        (chosen.len() == current.len()) == (offset == input.len()),
        chosen.len() == current.len() ==> mask == current_mask,
        offset < input.len() ==> ({
            let j = current.len() as int;
            let segment = transformed(chosen[j], forms[j]);
            let start = offset + if has_space(mask, j as nat) {
                1int
            } else {
                0int
            };
            let end = start + segment.len();
            &&& (input[offset] == 32u8) == has_space(mask, j as nat)
            &&& is_letter_token(segment)
            &&& end <= input.len()
            &&& end == reading_end(chosen, forms, mask, j)
            &&& input.subrange(start, end) == segment
            &&& spaced(apply_pattern(chosen, forms).take(j + 1), mask) == input.take(end)
            &&& mask as nat % pow2((j + 1) as nat) == current_mask as nat + if has_space(mask, j as nat) {
                pow2(j as nat)
            } else {
                0
            }
        }),
{
    let segments = apply_pattern(chosen, forms);
    let j = current.len() as int;
    assert forall|k: int| 0 <= k < segments.len() implies is_letter_token(#[trigger] segments[k]) by {
        let w = choose|w: int| 0 <= w < words.len() && words[w] == chosen[k];
        assert(is_letter_token(words[w]));
        crate::search::lemma_transformed_letters(chosen[k], forms[k]);
    }
    lemma_pow2_pos(j as nat);
    if chosen.len() == j {
        assert(segments.take(j) =~= segments);
        lemma_small_mod(mask as nat, pow2(j as nat));
    } else {
        assert forall|k: int| 0 <= k < segments.len() implies (#[trigger] segments[k]).len() > 0 by {
            assert(is_letter_token(segments[k]));
        }
        lemma_spaced_prefix(segments, j, mask);
        lemma_next_segment(segments, j, mask);
        lemma_mask_low_bits(mask, j as nat);
        assert(segments[j] == transformed(chosen[j], forms[j]));
    }
}

/// A reading that continues the current words, whose next word ends where a
/// pushed word of that case form ends, continues the pushed words
proof fn lemma_child_completion(
    words: Seq<Seq<u8>>,
    input: Seq<u8>,
    offset: int,
    current: Seq<Seq<u8>>,
    flags: Seq<u8>,
    current_mask: u128,
    next_mask: u128,
    chosen: Seq<Seq<u8>>,
    forms: Seq<CaseVariant>,
    mask: u128,
    longer: Seq<Seq<u8>>,
    longer_flags: Seq<u8>,
    end: int,
)
    requires
        completes(words, input, offset, current, flags, current_mask, chosen, forms, mask),
        forall|k: int| 0 <= k < words.len() ==> is_letter_token(#[trigger] words[k]),
        0 <= offset < input.len(),
        current.len() == flags.len(),
        reading_end(chosen, forms, mask, current.len() as int) == end,
        longer == current.push(chosen[current.len() as int]),
        longer_flags == flags.push(longer_flags.last()),
        has_variant(longer_flags.last(), forms[current.len() as int]),
        next_mask as nat == current_mask as nat + if input[offset] == 32u8 {
            pow2(current.len() as nat)
        } else {
            0
        },
    ensures
        completes(words, input, end, longer, longer_flags, next_mask, chosen, forms, mask),
{
    lemma_reading_next(words, input, offset, current, flags, current_mask, chosen, forms, mask);
    let j = current.len() as int;
    assert(chosen.take(j + 1) =~= chosen.take(j).push(chosen[j]));
    assert forall|k: int| 0 <= k < longer.len() implies has_variant(#[trigger] longer_flags[k], forms[k]) by {
        if k < j {
            assert(longer_flags[k] == flags[k]);
        }
    }
}

/// A longer output still lists what it listed
proof fn lemma_covers_kept(
    before: Seq<ParsedSegmentation>,
    after: Seq<ParsedSegmentation>,
    chosen: Seq<Seq<u8>>,
    forms: Seq<CaseVariant>,
    mask: u128,
)
    requires
        before.len() <= after.len(),
        after.take(before.len() as int) == before,
    ensures
        covers(before, chosen, forms, mask) ==> covers(after, chosen, forms, mask),
{
    if covers(before, chosen, forms, mask) {
        let i = choose|i: int| 0 <= i < before.len() && #[trigger] lists(before[i], chosen, forms, mask);
        assert(after[i] == after.take(before.len() as int)[i]);
        assert(lists(after[i], chosen, forms, mask));
    }
}

} // verus!
