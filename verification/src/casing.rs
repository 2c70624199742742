//! Capitalization variants of written tokens and their ranked patterns

use vstd::prelude::*;

use crate::bytes::{ascii_upper, deep, to_upper_byte};
use crate::combinatorics::{
    binomial, combination_rank, is_combination, lemma_binomial_is_pascal, lemma_combination_rank_below,
    lemma_combination_rank_injective, lemma_pascal_symmetric, min_nat, pascal,
    rank_combination, spec_binomial, unrank_combination,
};
use crate::error::RecoverError;

verus! {

/// Capitalization applied to one token
#[derive(Debug, Clone, Copy, PartialEq, Eq, Structural, Hash)]
pub enum CaseVariant {
    Lower,
    Title,
    Upper,
}

/// Bytes of a token under a capitalization variant
pub open spec fn transformed(word: Seq<u8>, variant: CaseVariant) -> Seq<u8> {
    match variant {
        CaseVariant::Lower => word,
        CaseVariant::Title => word.update(0, ascii_upper(word[0])),
        CaseVariant::Upper => word.map_values(|b: u8| ascii_upper(b)),
    }
}

/// Apply a capitalization pattern to each token
pub open spec fn apply_pattern(words: Seq<Seq<u8>>, pattern: Seq<CaseVariant>) -> Seq<Seq<u8>> {
    Seq::new(words.len(), |i: int| transformed(words[i], pattern[i]))
}

pub open spec fn variant_bit_spec(variant: CaseVariant) -> u8 {
    match variant {
        CaseVariant::Lower => 1,
        CaseVariant::Title => 2,
        CaseVariant::Upper => 4,
    }
}

pub fn variant_bit(variant: CaseVariant) -> (bit: u8)
    ensures
        bit == variant_bit_spec(variant),
{
    match variant {
        CaseVariant::Lower => 1,
        CaseVariant::Title => 2,
        CaseVariant::Upper => 4,
    }
}

/// Bytes of a token under a capitalization variant
pub fn transformed_word(word: &Vec<u8>, variant: CaseVariant) -> (bytes: Vec<u8>)
    requires
        word@.len() > 0,
    ensures
        bytes@ == transformed(word@, variant),
{
    match variant {
        CaseVariant::Lower => word.clone(),
        CaseVariant::Title => {
            let mut bytes = word.clone();
            let first = to_upper_byte(bytes[0]);
            bytes.set(0, first);
            bytes
        },
        CaseVariant::Upper => {
            let mut bytes: Vec<u8> = Vec::new();
            let mut i: usize = 0;
            while i < word.len()
                invariant
                    0 <= i <= word@.len(),
                    bytes@ =~= word@.take(i as int).map_values(|b: u8| ascii_upper(b)),
                decreases word@.len() - i,
            {
                bytes.push(to_upper_byte(word[i]));
                i = i + 1;
                assert(bytes@ =~= word@.take(i as int).map_values(|b: u8| ascii_upper(b)));
            }
            assert(word@.take(word@.len() as int) =~= word@);
            bytes
        },
    }
}

/// Apply a capitalization pattern to each token
pub fn apply_case_pattern(words: &Vec<Vec<u8>>, pattern: &Vec<CaseVariant>) -> (out: Vec<Vec<u8>>)
    requires
        words@.len() == pattern@.len(),
        forall|i: int| 0 <= i < words@.len() ==> #[trigger] words@[i]@.len() > 0,
    ensures
        deep(out@) == apply_pattern(deep(words@), pattern@),
{
    let mut out: Vec<Vec<u8>> = Vec::new();
    let mut i: usize = 0;
    while i < words.len()
        invariant
            words@.len() == pattern@.len(),
            forall|j: int| 0 <= j < words@.len() ==> #[trigger] words@[j]@.len() > 0,
            0 <= i <= words@.len(),
            out@.len() == i,
            forall|j: int| 0 <= j < i ==> #[trigger] out@[j]@ == transformed(words@[j]@, pattern@[j]),
        decreases words@.len() - i,
    {
        out.push(transformed_word(&words[i], pattern[i]));
        i = i + 1;
    }
    assert(deep(out@) =~= apply_pattern(deep(words@), pattern@));
    out
}

pub open spec fn pow_nat(base: nat, exponent: nat) -> nat
    decreases exponent,
{
    if exponent == 0 {
        1
    } else {
        base * pow_nat(base, (exponent - 1) as nat)
    }
}

proof fn lemma_pow_positive(base: nat, e: nat)
    requires
        base >= 1,
    ensures
        pow_nat(base, e) >= 1,
    decreases e,
{
    if e > 0 {
        lemma_pow_positive(base, (e - 1) as nat);
        let p = pow_nat(base, (e - 1) as nat);
        assert(base * p >= 1) by (nonlinear_arith)
            requires
                base >= 1,
                p >= 1,
        ;
    }
}

proof fn lemma_pow_monotone(base: nat, a: nat, b: nat)
    requires
        base >= 1,
        a <= b,
    ensures
        pow_nat(base, a) <= pow_nat(base, b),
        pow_nat(base, a) >= 1,
    decreases b,
{
    lemma_pow_positive(base, a);
    if a < b {
        lemma_pow_monotone(base, a, (b - 1) as nat);
        lemma_pow_positive(base, (b - 1) as nat);
        let p = pow_nat(base, (b - 1) as nat);
        assert(base * p >= p) by (nonlinear_arith)
            requires
                base >= 1,
                p >= 1,
        ;
    }
}

/// `base^exponent`, failing beyond `u128`
pub fn checked_power(base: u128, exponent: usize) -> (result: Option<u128>)
    requires
        base >= 1,
    ensures
        match result {
            Some(value) => value == pow_nat(base as nat, exponent as nat),
            None => pow_nat(base as nat, exponent as nat) > u128::MAX,
        },
{
    let mut value: u128 = 1;
    let mut i: usize = 0;
    while i < exponent
        invariant
            base >= 1,
            i <= exponent,
            value == pow_nat(base as nat, i as nat),
        decreases exponent - i,
    {
        match value.checked_mul(base) {
            Some(next) => {
                proof {
                    assert(value * base == base * value) by (nonlinear_arith);
                }
                value = next;
            },
            None => {
                proof {
                    assert(value * base == base * value) by (nonlinear_arith);
                    lemma_pow_monotone(base as nat, (i + 1) as nat, exponent as nat);
                }
                return None;
            },
        }
        i = i + 1;
    }
    Some(value)
}

/// Number of capitalization patterns: one (lowercase) or every non-lowercase pattern
pub fn case_pattern_count(word_count: usize, variants: bool) -> (result: Result<u128, RecoverError>)
    ensures
        match result {
            Ok(count) => if variants {
                count == pow_nat(3, word_count as nat) - 1
            } else {
                count == 1
            },
            Err(error) => error == RecoverError::CountOverflow && variants && pow_nat(3, word_count as nat)
                > u128::MAX,
        },
{
    if !variants {
        return Ok(1);
    }
    match checked_power(3, word_count) {
        Some(count) => {
            proof {
                lemma_pow_monotone(3, 0, word_count as nat);
            }
            Ok(count - 1)
        },
        None => Err(RecoverError::CountOverflow),
    }
}

/// Non-lowercase token positions of a pattern, in increasing order
pub open spec fn raised_positions(pattern: Seq<CaseVariant>) -> Seq<int>
    decreases pattern.len(),
{
    if pattern.len() == 0 {
        Seq::empty()
    } else if pattern.last() == CaseVariant::Lower {
        raised_positions(pattern.drop_last())
    } else {
        raised_positions(pattern.drop_last()).push(pattern.len() - 1)
    }
}

/// Binary number whose bit `j` is set when the `j`-th raised position is uppercase
pub open spec fn upper_bits(pattern: Seq<CaseVariant>, positions: Seq<int>) -> nat
    decreases positions.len(),
{
    if positions.len() == 0 {
        0
    } else {
        upper_bits(pattern, positions.drop_last()) + if pattern[positions.last()] == CaseVariant::Upper {
            pow_nat(2, (positions.len() - 1) as nat)
        } else {
            0
        }
    }
}

/// Patterns of lower weight precede patterns of higher weight
pub open spec fn weight_blocks_before(n: nat, weight: nat) -> nat
    decreases weight,
{
    if weight <= 1 {
        0
    } else {
        weight_blocks_before(n, (weight - 1) as nat) + spec_binomial(
            n,
            min_nat((weight - 1) as nat, (n - (weight - 1)) as nat),
        ) * pow_nat(2, (weight - 1) as nat)
    }
}

pub open spec fn all_variant(pattern: Seq<CaseVariant>, variant: CaseVariant) -> bool {
    forall|i: int| 0 <= i < pattern.len() ==> pattern[i] == variant
}

/// Rank of a non-lowercase capitalization pattern: uniform Title first,
/// uniform UPPER second, then by number of raised tokens, then by the
/// lexicographic rank of their positions, then by their Title/UPPER bits
pub open spec fn case_rank(pattern: Seq<CaseVariant>) -> int {
    let positions = raised_positions(pattern);
    let weight = positions.len();
    let n = pattern.len();
    if all_variant(pattern, CaseVariant::Title) {
        0
    } else if all_variant(pattern, CaseVariant::Upper) {
        1
    } else if weight == n {
        2 + weight_blocks_before(n, weight) + upper_bits(pattern, positions) - 1
    } else {
        2 + weight_blocks_before(n, weight) + combination_rank(
            n,
            positions.map_values(|p: int| p as usize),
        ) * pow_nat(2, weight) + upper_bits(pattern, positions) as int
    }
}

proof fn lemma_pow_nat_is_pow2(e: nat)
    ensures
        pow_nat(2, e) == vstd::arithmetic::power2::pow2(e),
    decreases e,
{
    if e > 0 {
        lemma_pow_nat_is_pow2((e - 1) as nat);
        vstd::arithmetic::power2::lemma_pow2_unfold(e);
    } else {
        vstd::arithmetic::power2::lemma2_to64();
    }
}

/// A pattern's raised positions are exactly the positions that are not
/// lowercase
proof fn lemma_raised_exact(pattern: Seq<CaseVariant>, positions: Seq<usize>)
    requires
        pattern.len() <= usize::MAX,
        is_combination(pattern.len(), positions),
        forall|p: int| 0 <= p < pattern.len() ==> (pattern[p] != CaseVariant::Lower <==> positions.contains(p as usize)),
    ensures
        raised_positions(pattern) == as_ints(positions),
    decreases pattern.len(),
{
    if pattern.len() == 0 {
        if positions.len() > 0 {
            assert(positions[0] < 0);
        }
        assert(as_ints(positions) =~= Seq::<int>::empty());
    } else {
        let n = pattern.len() - 1;
        let rest = pattern.drop_last();
        let last_raised = pattern[n] != CaseVariant::Lower;
        let shorter = if last_raised {
            positions.drop_last()
        } else {
            positions
        };
        if last_raised {
            assert(positions.contains(n as usize));
            let k = choose|k: int| 0 <= k < positions.len() && positions[k] == n as usize;
            if k < positions.len() - 1 {
                assert(positions[k] < positions[positions.len() - 1]);
                assert(positions[positions.len() - 1] < pattern.len());
                assert(false);
            }
            assert(positions[positions.len() - 1] == n as usize);
        }
        assert forall|i: int| 0 <= i < shorter.len() implies #[trigger] shorter[i] < n by {
            if last_raised {
                assert(positions[i] < positions[positions.len() - 1]);
            } else {
                assert(positions[i] != n as usize);
            }
        }
        assert forall|p: int| 0 <= p < rest.len() implies (rest[p] != CaseVariant::Lower <==> shorter.contains(
            p as usize,
        )) by {
            assert(rest[p] == pattern[p]);
            if positions.contains(p as usize) {
                let k = choose|k: int| 0 <= k < positions.len() && positions[k] == p as usize;
                if last_raised && k == positions.len() - 1 {
                    assert(false);
                }
                assert(shorter[k] == p as usize);
            }
            if shorter.contains(p as usize) {
                let k = choose|k: int| 0 <= k < shorter.len() && shorter[k] == p as usize;
                assert(positions[k] == p as usize);
            }
        }
        lemma_raised_exact(rest, shorter);
        if last_raised {
            assert(shorter =~= positions.drop_last());
            assert(as_ints(positions).len() == as_ints(shorter).len() + 1);
            assert forall|i: int| 0 <= i < as_ints(positions).len() implies #[trigger] as_ints(positions)[i]
                == as_ints(shorter).push(n)[i] by {
                if i < shorter.len() {
                    assert(shorter[i] == positions[i]);
                } else {
                    assert(positions[i] == n as usize);
                }
            }
            assert(as_ints(positions) =~= as_ints(shorter).push(n));
        } else {
            assert(shorter == positions);
        }
    }
}

/// The sorted positions of an n-subset of n positions are 0, 1, ..., n-1
proof fn lemma_full_combination(n: nat, positions: Seq<usize>)
    requires
        is_combination(n, positions),
        positions.len() == n,
    ensures
        forall|j: int| 0 <= j < n ==> positions[j] == j,
{
    assert forall|j: int| 0 <= j < n implies positions[j] >= j by {
        lemma_combination_lower(positions, j);
    }
    assert forall|j: int| 0 <= j < n implies positions[j] <= j by {
        lemma_combination_upper(n, positions, j);
    }
}

proof fn lemma_combination_lower(positions: Seq<usize>, j: int)
    requires
        0 <= j < positions.len(),
        forall|a: int, b: int| 0 <= a < b < positions.len() ==> positions[a] < positions[b],
    ensures
        positions[j] >= j,
    decreases j,
{
    if j > 0 {
        lemma_combination_lower(positions, j - 1);
        assert(positions[j - 1] < positions[j]);
    }
}

proof fn lemma_combination_upper(n: nat, positions: Seq<usize>, j: int)
    requires
        0 <= j < positions.len(),
        positions.len() == n,
        is_combination(n, positions),
    ensures
        positions[j] <= j,
    decreases n - j,
{
    if j < n - 1 {
        lemma_combination_upper(n, positions, j + 1);
        assert(positions[j] < positions[j + 1]);
    } else {
        assert(positions[j] < n);
    }
}

/// The pattern's tokens at the positions carry the bits of a number: UPPER
/// for a set bit, Title for a clear one
pub open spec fn carries_bits(pattern: Seq<CaseVariant>, positions: Seq<usize>, value: nat, count: int) -> bool {
    forall|j: int|
        0 <= j < count ==> #[trigger] pattern[positions[j] as int] == if (value / pow_nat(2, j as nat)) % 2 == 1 {
            CaseVariant::Upper
        } else {
            CaseVariant::Title
        }
}

proof fn lemma_upper_bits_value(pattern: Seq<CaseVariant>, positions: Seq<usize>, value: nat, k: nat)
    requires
        k <= positions.len(),
        carries_bits(pattern, positions, value, positions.len() as int),
    ensures
        upper_bits(pattern, as_ints(positions.take(k as int))) == value % pow_nat(2, k),
    decreases k,
{
    lemma_pow_positive(2, k);
    if k == 0 {
        assert(as_ints(positions.take(0)) =~= Seq::<int>::empty());
    } else {
        let previous = (k - 1) as nat;
        lemma_upper_bits_value(pattern, positions, value, previous);
        let before = as_ints(positions.take(previous as int));
        let after = as_ints(positions.take(k as int));
        assert(after.drop_last() =~= before);
        assert(after.last() == positions[previous as int] as int);
        lemma_pow_positive(2, previous);
        let p = pow_nat(2, previous);
        vstd::arithmetic::div_mod::lemma_mod_breakdown(value as int, p as int, 2);
        assert(pow_nat(2, k) == 2 * p);
        assert(p * 2 == 2 * p) by (nonlinear_arith);
        let bit = (value / p) % 2;
        assert(pattern[positions[previous as int] as int] == if bit == 1 {
            CaseVariant::Upper
        } else {
            CaseVariant::Title
        });
        assert(bit == 0 || bit == 1);
        if bit == 1 {
            assert(p * bit == p) by (nonlinear_arith)
                requires
                    bit == 1,
            ;
        } else {
            assert(p * bit == 0) by (nonlinear_arith)
                requires
                    bit == 0,
            ;
        }
    }
}

proof fn lemma_all_upper_bits(pattern: Seq<CaseVariant>, positions: Seq<usize>, k: nat)
    requires
        k <= positions.len(),
        forall|j: int| 0 <= j < positions.len() ==> #[trigger] pattern[positions[j] as int] == CaseVariant::Upper,
    ensures
        upper_bits(pattern, as_ints(positions.take(k as int))) + 1 == pow_nat(2, k),
    decreases k,
{
    if k == 0 {
        assert(as_ints(positions.take(0)) =~= Seq::<int>::empty());
    } else {
        lemma_all_upper_bits(pattern, positions, (k - 1) as nat);
        let before = as_ints(positions.take(k - 1));
        let after = as_ints(positions.take(k as int));
        assert(after.drop_last() =~= before);
        assert(after.last() == positions[k - 1] as int);
    }
}

proof fn lemma_no_upper_bits(pattern: Seq<CaseVariant>, positions: Seq<usize>, k: nat)
    requires
        k <= positions.len(),
        forall|j: int| 0 <= j < positions.len() ==> #[trigger] pattern[positions[j] as int] == CaseVariant::Title,
    ensures
        upper_bits(pattern, as_ints(positions.take(k as int))) == 0,
    decreases k,
{
    if k == 0 {
        assert(as_ints(positions.take(0)) =~= Seq::<int>::empty());
    } else {
        lemma_no_upper_bits(pattern, positions, (k - 1) as nat);
        let before = as_ints(positions.take(k - 1));
        let after = as_ints(positions.take(k as int));
        assert(after.drop_last() =~= before);
        assert(after.last() == positions[k - 1] as int);
    }
}

proof fn lemma_uniform_raised(pattern: Seq<CaseVariant>, variant: CaseVariant)
    requires
        variant != CaseVariant::Lower,
        all_variant(pattern, variant),
    ensures
        raised_positions(pattern).len() == pattern.len(),
    decreases pattern.len(),
{
    if pattern.len() > 0 {
        lemma_uniform_raised(pattern.drop_last(), variant);
    }
}

/// A pattern has at most as many raised positions as tokens
proof fn lemma_raised_len(pattern: Seq<CaseVariant>)
    ensures
        raised_positions(pattern).len() <= pattern.len(),
    decreases pattern.len(),
{
    if pattern.len() > 0 {
        lemma_raised_len(pattern.drop_last());
    }
}

/// Raised positions increase
proof fn lemma_raised_increasing(pattern: Seq<CaseVariant>)
    ensures
        forall|i: int, j: int|
            0 <= i < j < raised_positions(pattern).len() ==> raised_positions(pattern)[i] < raised_positions(
                pattern,
            )[j],
        forall|i: int|
            0 <= i < raised_positions(pattern).len() ==> 0 <= #[trigger] raised_positions(pattern)[i] < pattern.len(),
    decreases pattern.len(),
{
    lemma_raised_sound(pattern);
    if pattern.len() > 0 {
        let rest = pattern.drop_last();
        lemma_raised_increasing(rest);
        lemma_raised_sound(rest);
    }
}

/// The raised positions of a pattern form a subset of its positions
proof fn lemma_raised_combination(pattern: Seq<CaseVariant>)
    requires
        pattern.len() <= usize::MAX,
    ensures
        is_combination(pattern.len(), raised_positions(pattern).map_values(|p: int| p as usize)),
        raised_positions(pattern).map_values(|p: int| p as usize).len() == raised_positions(pattern).len(),
{
    lemma_raised_increasing(pattern);
    let r = raised_positions(pattern);
    let u = r.map_values(|p: int| p as usize);
    assert forall|i: int| 0 <= i < u.len() implies #[trigger] u[i] < pattern.len() by {
        assert(0 <= r[i] < pattern.len());
    }
    assert forall|i: int, j: int| 0 <= i < j < u.len() implies u[i] < u[j] by {
        assert(r[i] < r[j]);
        assert(0 <= r[i] < pattern.len());
        assert(0 <= r[j] < pattern.len());
    }
}

/// The Title/UPPER bits of `k` positions are below `2^k`
proof fn lemma_upper_bits_below(pattern: Seq<CaseVariant>, positions: Seq<int>)
    ensures
        upper_bits(pattern, positions) < pow_nat(2, positions.len()),
    decreases positions.len(),
{
    if positions.len() > 0 {
        lemma_upper_bits_below(pattern, positions.drop_last());
    }
}

/// All bits set means every position is UPPER
proof fn lemma_upper_bits_full(pattern: Seq<CaseVariant>, positions: Seq<int>)
    requires
        upper_bits(pattern, positions) + 1 == pow_nat(2, positions.len()),
    ensures
        forall|j: int| 0 <= j < positions.len() ==> pattern[#[trigger] positions[j]] == CaseVariant::Upper,
    decreases positions.len(),
{
    if positions.len() > 0 {
        let rest = positions.drop_last();
        lemma_upper_bits_below(pattern, rest);
        if pattern[positions.last()] != CaseVariant::Upper {
            assert(upper_bits(pattern, positions) == upper_bits(pattern, rest));
            assert(false);
        }
        lemma_upper_bits_full(pattern, rest);
        assert forall|j: int| 0 <= j < positions.len() implies pattern[#[trigger] positions[j]] == CaseVariant::Upper by {
            if j < positions.len() - 1 {
                assert(rest[j] == positions[j]);
            }
        }
    }
}

/// Every raised token is among the raised positions
proof fn lemma_raised_complete(pattern: Seq<CaseVariant>)
    ensures
        forall|j: int| 0 <= j < pattern.len() && pattern[j] != CaseVariant::Lower ==> #[trigger] raised_positions(
            pattern,
        ).contains(j),
    decreases pattern.len(),
{
    if pattern.len() > 0 {
        let rest = pattern.drop_last();
        lemma_raised_complete(rest);
        assert forall|j: int| 0 <= j < pattern.len() && pattern[j] != CaseVariant::Lower implies #[trigger] raised_positions(
            pattern,
        ).contains(j) by {
            if j < pattern.len() - 1 {
                assert(rest[j] == pattern[j]);
                assert(raised_positions(rest).contains(j));
                let k = choose|k: int| 0 <= k < raised_positions(rest).len() && raised_positions(rest)[k] == j;
                assert(raised_positions(pattern)[k] == j);
            } else {
                let r = raised_positions(pattern);
                assert(r[r.len() - 1] == j);
            }
        }
    }
}

/// Raised tokens with the same Title/UPPER bits have the same variants
proof fn lemma_upper_bits_injective(p: Seq<CaseVariant>, q: Seq<CaseVariant>, positions: Seq<int>)
    requires
        forall|j: int| 0 <= j < positions.len() ==> p[#[trigger] positions[j]] != CaseVariant::Lower,
        forall|j: int| 0 <= j < positions.len() ==> q[#[trigger] positions[j]] != CaseVariant::Lower,
        upper_bits(p, positions) == upper_bits(q, positions),
    ensures
        forall|j: int| 0 <= j < positions.len() ==> p[#[trigger] positions[j]] == q[positions[j]],
    decreases positions.len(),
{
    if positions.len() > 0 {
        let rest = positions.drop_last();
        let last = positions.last();
        lemma_upper_bits_below(p, rest);
        lemma_upper_bits_below(q, rest);
        assert(p[positions[positions.len() - 1]] != CaseVariant::Lower);
        assert(q[positions[positions.len() - 1]] != CaseVariant::Lower);
        assert(p[last] == q[last]);
        assert forall|j: int| 0 <= j < rest.len() implies p[#[trigger] rest[j]] != CaseVariant::Lower && q[rest[j]]
            != CaseVariant::Lower by {
            assert(rest[j] == positions[j]);
        }
        lemma_upper_bits_injective(p, q, rest);
        assert forall|j: int| 0 <= j < positions.len() implies p[#[trigger] positions[j]] == q[positions[j]] by {
            if j < rest.len() {
                assert(rest[j] == positions[j]);
            }
        }
    }
}

/// Where a pattern's rank lies: uniform Title at 0, uniform UPPER at 1, and
/// otherwise within the block of its number of raised tokens
proof fn lemma_rank_window(p: Seq<CaseVariant>)
    requires
        p.len() <= usize::MAX,
        raised_positions(p).len() > 0,
    ensures
        all_variant(p, CaseVariant::Title) ==> case_rank(p) == 0,
        !all_variant(p, CaseVariant::Title) && all_variant(p, CaseVariant::Upper) ==> case_rank(p) == 1,
        !all_variant(p, CaseVariant::Title) && !all_variant(p, CaseVariant::Upper) ==> {
            let n = p.len();
            let w = raised_positions(p).len();
            &&& 2 + weight_blocks_before(n, w) <= case_rank(p)
            &&& w < n ==> case_rank(p) < 2 + weight_blocks_before(n, w + 1)
            &&& w == n ==> case_rank(p) + 1 == 2 + weight_blocks_before(n, w) + upper_bits(p, raised_positions(p))
        },
{
    let n = p.len();
    let r = raised_positions(p);
    let w = r.len();
    if !all_variant(p, CaseVariant::Title) && !all_variant(p, CaseVariant::Upper) {
        let positions = r.map_values(|x: int| x as usize);
        lemma_raised_combination(p);
        lemma_raised_len(p);
        lemma_upper_bits_below(p, r);
        lemma_raised_sound(p);
        let bits = upper_bits(p, r);
        if w == n {
            lemma_full_combination(n, positions);
            if bits == 0 {
                lemma_upper_bits_zero(p, r);
                assert forall|j: int| 0 <= j < n implies p[j] == CaseVariant::Title by {
                    assert(positions[j] == j);
                    assert(r[j] == j);
                }
                assert(false);
            }
        } else {
            lemma_combination_rank_below(n, positions);
            lemma_weight_blocks_step(n, w);
            lemma_block_is_pascal(n, w);
            let c = pascal(n, w);
            let cr = combination_rank(n, positions);
            let p2 = pow_nat(2, w);
            assert(cr * p2 + bits < c * p2) by (nonlinear_arith)
                requires
                    cr < c,
                    bits < p2,
            ;
        }
    }
}

/// The rank determines the pattern: two patterns of one length with at least
/// one raised token each and with the same rank are equal
pub proof fn lemma_case_rank_injective(p: Seq<CaseVariant>, q: Seq<CaseVariant>)
    requires
        p.len() == q.len(),
        p.len() <= usize::MAX,
        raised_positions(p).len() > 0,
        raised_positions(q).len() > 0,
        case_rank(p) == case_rank(q),
    ensures
        p == q,
{
    let n = p.len();
    lemma_rank_window(p);
    lemma_rank_window(q);
    let rp = raised_positions(p);
    let rq = raised_positions(q);
    let wp = rp.len();
    let wq = rq.len();
    lemma_raised_len(p);
    lemma_raised_len(q);
    let up = !all_variant(p, CaseVariant::Title) && !all_variant(p, CaseVariant::Upper);
    let uq = !all_variant(q, CaseVariant::Title) && !all_variant(q, CaseVariant::Upper);
    if !up || !uq {
        assert(all_variant(p, CaseVariant::Title) == all_variant(q, CaseVariant::Title));
        if all_variant(p, CaseVariant::Title) {
            assert(p =~= q);
        } else {
            assert(all_variant(p, CaseVariant::Upper) && all_variant(q, CaseVariant::Upper));
            assert(p =~= q);
        }
    } else {
        if wp < wq {
            lemma_weight_blocks_monotone(n, wp + 1, wq);
            assert(false);
        }
        if wq < wp {
            lemma_weight_blocks_monotone(n, wq + 1, wp);
            assert(false);
        }
        let w = wp;
        lemma_raised_sound(p);
        lemma_raised_sound(q);
        lemma_raised_complete(p);
        lemma_raised_complete(q);
        if w < n {
            let pp = rp.map_values(|x: int| x as usize);
            let pq = rq.map_values(|x: int| x as usize);
            lemma_raised_combination(p);
            lemma_raised_combination(q);
            lemma_upper_bits_below(p, rp);
            lemma_upper_bits_below(q, rq);
            let d = pow_nat(2, w);
            lemma_pow_positive(2, w);
            let x = case_rank(p) - 2 - weight_blocks_before(n, w);
            vstd::arithmetic::div_mod::lemma_fundamental_div_mod_converse(
                x,
                d as int,
                combination_rank(n, pp) as int,
                upper_bits(p, rp) as int,
            );
            vstd::arithmetic::div_mod::lemma_fundamental_div_mod_converse(
                x,
                d as int,
                combination_rank(n, pq) as int,
                upper_bits(q, rq) as int,
            );
            lemma_combination_rank_injective(n, pp, pq);
            assert(rp =~= rq) by {
                assert forall|i: int| 0 <= i < rp.len() implies rp[i] == rq[i] by {
                    assert(pp[i] == pq[i]);
                }
            }
        } else {
            lemma_raised_combination(p);
            lemma_raised_combination(q);
            lemma_full_combination(n, rp.map_values(|x: int| x as usize));
            lemma_full_combination(n, rq.map_values(|x: int| x as usize));
            assert(rp =~= rq) by {
                assert forall|i: int| 0 <= i < rp.len() implies rp[i] == rq[i] by {
                    assert(rp.map_values(|x: int| x as usize)[i] == i);
                    assert(rq.map_values(|x: int| x as usize)[i] == i);
                }
            }
        }
        assert forall|j: int| 0 <= j < rp.len() implies p[#[trigger] rp[j]] != CaseVariant::Lower && q[rp[j]]
            != CaseVariant::Lower by {
            assert(rq[j] == rp[j]);
        }
        lemma_upper_bits_injective(p, q, rp);
        assert(p =~= q) by {
            assert forall|j: int| 0 <= j < n implies p[j] == q[j] by {
                if p[j] != CaseVariant::Lower {
                    assert(rp.contains(j));
                    let k = choose|k: int| 0 <= k < rp.len() && rp[k] == j;
                    assert(p[rp[k]] == q[rp[k]]);
                } else if q[j] != CaseVariant::Lower {
                    assert(rq.contains(j));
                    let k = choose|k: int| 0 <= k < rq.len() && rq[k] == j;
                    assert(rp[k] == j);
                    assert(false);
                }
            }
        }
    }
}

/// Patterns with lowercase at the same tokens have the same raised positions
proof fn lemma_raised_same(p: Seq<CaseVariant>, q: Seq<CaseVariant>)
    requires
        p.len() == q.len(),
        forall|j: int| 0 <= j < p.len() ==> (p[j] == CaseVariant::Lower <==> q[j] == CaseVariant::Lower),
    ensures
        raised_positions(p) == raised_positions(q),
    decreases p.len(),
{
    if p.len() > 0 {
        lemma_raised_same(p.drop_last(), q.drop_last());
    }
}

/// Fewer UPPER tokens at the positions give no more Title/UPPER bits
proof fn lemma_upper_bits_le(q: Seq<CaseVariant>, p: Seq<CaseVariant>, positions: Seq<int>)
    requires
        forall|j: int| 0 <= j < positions.len() && q[#[trigger] positions[j]] == CaseVariant::Upper ==> p[positions[j]]
            == CaseVariant::Upper,
    ensures
        upper_bits(q, positions) <= upper_bits(p, positions),
    decreases positions.len(),
{
    if positions.len() > 0 {
        let rest = positions.drop_last();
        assert forall|j: int| 0 <= j < rest.len() && q[#[trigger] rest[j]] == CaseVariant::Upper implies p[rest[j]]
            == CaseVariant::Upper by {
            assert(rest[j] == positions[j]);
        }
        lemma_upper_bits_le(q, p, rest);
        assert(q[positions[positions.len() - 1]] == CaseVariant::Upper ==> p[positions[positions.len() - 1]]
            == CaseVariant::Upper);
    }
}

/// Raising the same tokens, with UPPER at no more of them, gives no later rank
pub proof fn lemma_case_rank_monotone(q: Seq<CaseVariant>, p: Seq<CaseVariant>)
    requires
        q.len() == p.len(),
        p.len() <= usize::MAX,
        forall|j: int| 0 <= j < p.len() ==> (q[j] == CaseVariant::Lower <==> p[j] == CaseVariant::Lower),
        forall|j: int| 0 <= j < p.len() && q[j] == CaseVariant::Upper ==> p[j] == CaseVariant::Upper,
        !all_variant(q, CaseVariant::Title),
        !all_variant(q, CaseVariant::Upper),
        !all_variant(p, CaseVariant::Title),
        !all_variant(p, CaseVariant::Upper),
    ensures
        case_rank(q) <= case_rank(p),
{
    lemma_raised_same(q, p);
    let r = raised_positions(p);
    lemma_raised_sound(p);
    assert forall|j: int| 0 <= j < r.len() && q[#[trigger] r[j]] == CaseVariant::Upper implies p[r[j]]
        == CaseVariant::Upper by {}
    lemma_upper_bits_le(q, p, r);
}

/// The raised positions of a pattern are tokens of it that are not lowercase
pub proof fn lemma_raised_nonlower(pattern: Seq<CaseVariant>)
    ensures
        forall|j: int|
            0 <= j < raised_positions(pattern).len() ==> 0 <= #[trigger] raised_positions(pattern)[j] < pattern.len()
                && pattern[raised_positions(pattern)[j]] != CaseVariant::Lower,
{
    lemma_raised_sound(pattern);
}

/// A pattern that is neither uniform Title nor uniform UPPER ranks after both
pub proof fn lemma_case_rank_at_least_two(pattern: Seq<CaseVariant>)
    requires
        pattern.len() <= usize::MAX,
        raised_positions(pattern).len() > 0,
        !all_variant(pattern, CaseVariant::Title),
        !all_variant(pattern, CaseVariant::Upper),
    ensures
        case_rank(pattern) >= 2,
{
    lemma_rank_window(pattern);
}

/// A pattern that is lowercase everywhere has no raised position
pub proof fn lemma_lower_unraised(pattern: Seq<CaseVariant>)
    requires
        all_variant(pattern, CaseVariant::Lower),
    ensures
        raised_positions(pattern).len() == 0,
{
    lemma_raised_sound(pattern);
    if raised_positions(pattern).len() > 0 {
        assert(pattern[raised_positions(pattern)[0]] != CaseVariant::Lower);
    }
}

/// A pattern that is not lowercase everywhere has a raised position
pub proof fn lemma_raised_exists(pattern: Seq<CaseVariant>, j: int)
    requires
        0 <= j < pattern.len(),
        pattern[j] != CaseVariant::Lower,
    ensures
        raised_positions(pattern).len() > 0,
{
    lemma_raised_complete(pattern);
    assert(raised_positions(pattern).contains(j));
}

/// A rank some pattern of `n` tokens has, with at least one raised token and
/// with the patterns of its number of raised tokens countable in `u128`
pub open spec fn rank_in_range(n: nat, rank: int) -> bool {
    exists|pattern: Seq<CaseVariant>| #[trigger] ranked_within(n, rank, pattern)
}

/// A pattern of `n` tokens with this rank and at least one raised token,
/// whose number of raised tokens has its patterns countable in `u128`
pub open spec fn ranked_within(n: nat, rank: int, pattern: Seq<CaseVariant>) -> bool {
    &&& pattern.len() == n
    &&& raised_positions(pattern).len() > 0
    &&& case_rank(pattern) == rank
    &&& pow_nat(2, raised_positions(pattern).len()) * pascal(n, raised_positions(pattern).len()) <= u128::MAX
}

/// The capitalization pattern with the given rank, as `case_rank` orders
/// them; it is never all lowercase
pub fn case_pattern_at(word_count: usize, rank: u128) -> (result: Result<Vec<CaseVariant>, RecoverError>)
    ensures
        result matches Ok(pattern) ==> pattern@.len() == word_count,
        result matches Ok(pattern) ==> (word_count >= 1 ==> case_rank(pattern@) == rank && raised_positions(
            pattern@,
        ).len() > 0),
        word_count == 0 ==> (result is Ok <==> rank < 2),
        result matches Err(error) ==> error == RecoverError::CountOverflow,
        word_count >= 1 && rank_in_range(word_count as nat, rank as int) ==> result is Ok,
        word_count >= 1 ==> (result matches Ok(pattern) ==> forall|q: Seq<CaseVariant>|
            q.len() == word_count && raised_positions(q).len() > 0 && #[trigger] case_rank(q) == rank ==> q
                == pattern@),
{
    if rank == 0 {
        let pattern = vec_of(CaseVariant::Title, word_count);
        proof {
            lemma_uniform_raised(pattern@, CaseVariant::Title);
        }
        proof {
            if word_count >= 1 {
                assert forall|q: Seq<CaseVariant>|
                    q.len() == word_count && raised_positions(q).len() > 0 && #[trigger] case_rank(q) == rank implies q
                    == pattern@ by {
                    lemma_case_rank_injective(q, pattern@);
                }
            }
        }
        return Ok(pattern);
    }
    if rank == 1 {
        let pattern = vec_of(CaseVariant::Upper, word_count);
        proof {
            lemma_uniform_raised(pattern@, CaseVariant::Upper);
            if word_count >= 1 {
                assert(pattern@[0] == CaseVariant::Upper);
            }
        }
        proof {
            if word_count >= 1 {
                assert forall|q: Seq<CaseVariant>|
                    q.len() == word_count && raised_positions(q).len() > 0 && #[trigger] case_rank(q) == rank implies q
                    == pattern@ by {
                    lemma_case_rank_injective(q, pattern@);
                }
            }
        }
        return Ok(pattern);
    }
    let ghost n = word_count as nat;
    let ghost reach = word_count >= 1 && rank_in_range(n, rank as int);
    let ghost target: Seq<CaseVariant> = choose|pattern: Seq<CaseVariant>| #[trigger] ranked_within(n, rank as int, pattern);
    let ghost tw = raised_positions(target).len();
    let ghost tcr = combination_rank(n, raised_positions(target).map_values(|p: int| p as usize));
    let ghost tbits = upper_bits(target, raised_positions(target));
    proof {
        if reach {
            assert(ranked_within(n, rank as int, target));
            lemma_raised_len(target);
            assert(!all_variant(target, CaseVariant::Title));
            assert(!all_variant(target, CaseVariant::Upper));
            lemma_raised_combination(target);
            lemma_upper_bits_below(target, raised_positions(target));
            lemma_combination_rank_below(n, raised_positions(target).map_values(|p: int| p as usize));
            lemma_raised_increasing(target);
            if tw == n {
                if tbits == 0 {
                    lemma_upper_bits_zero(target, raised_positions(target));
                    let positions = raised_positions(target).map_values(|p: int| p as usize);
                    lemma_full_combination(n, positions);
                    lemma_raised_sound(target);
                    assert forall|j: int| 0 <= j < n implies target[j] == CaseVariant::Title by {
                        assert(positions[j] == j);
                        assert(raised_positions(target)[j] == j);
                    }
                    assert(all_variant(target, CaseVariant::Title));
                }
                if tbits + 1 == pow_nat(2, n) {
                    lemma_upper_bits_full(target, raised_positions(target));
                    let positions = raised_positions(target).map_values(|p: int| p as usize);
                    lemma_full_combination(n, positions);
                    assert forall|j: int| 0 <= j < n implies target[j] == CaseVariant::Upper by {
                        assert(positions[j] == j);
                        assert(raised_positions(target)[j] == j);
                    }
                    assert(all_variant(target, CaseVariant::Upper));
                }
                assert(tbits + 1 < pow_nat(2, n));
                assert(pascal(n, n) == 1) by {
                    lemma_binomial_is_pascal(n, 0);
                    lemma_pascal_symmetric(n, n);
                }
            }
        }
    }
    let mut remaining_rank = rank - 2;
    let mut weight: usize = 1;
    while weight <= word_count
        invariant
            1 <= weight <= word_count + 1,
            n == word_count,
            rank >= 2,
            weight <= word_count ==> remaining_rank + weight_blocks_before(n, weight as nat) == rank - 2,
            reach == (word_count >= 1 && rank_in_range(n, rank as int)),
            reach ==> weight <= tw && 1 <= tw <= n,
            reach ==> 2 + weight_blocks_before(n, tw) <= rank,
            reach ==> pow_nat(2, tw) * pascal(n, tw) <= u128::MAX,
            reach && tw < n ==> rank - 2 - weight_blocks_before(n, tw) == tcr * pow_nat(2, tw) + tbits,
            reach && tw == n ==> rank - 2 - weight_blocks_before(n, tw) + 1 == tbits,
            reach ==> tbits < pow_nat(2, tw) && tcr < pascal(n, tw),
            reach && tw == n ==> tbits + 1 < pow_nat(2, n) && pascal(n, n) == 1,
        decreases word_count + 1 - weight,
    {
        proof {
            if reach {
                lemma_weight_blocks_step(n, weight as nat);
                lemma_block_is_pascal(n, weight as nat);
                lemma_pascal_positive(n, weight as nat);
                lemma_pow2_exceeds(weight as nat);
                let c = pascal(n, weight as nat);
                let p2 = pow_nat(2, weight as nat);
                assert(c * p2 == p2 * c) by (nonlinear_arith);
                if weight < tw {
                    lemma_weight_blocks_monotone(n, (weight + 1) as nat, tw);
                    assert(weight_blocks_before(n, (weight + 1) as nat) == weight_blocks_before(n, weight as nat) + c
                        * p2);
                    assert(c * p2 <= u128::MAX);
                }
                assert(p2 * c <= u128::MAX);
                assert(p2 <= p2 * c && weight * c <= p2 * c) by (nonlinear_arith)
                    requires
                        c >= 1,
                        weight < p2,
                ;
            }
        }
        let variants = match checked_power(2, weight) {
            Some(v) => v,
            None => return Err(RecoverError::CountOverflow),
        };
        proof {
            if weight >= 128 {
                lemma_pow_monotone(2, 128, weight as nat);
                lemma_pow_nat_is_pow2(128);
                vstd::arithmetic::power2::lemma2_to64();
                vstd::arithmetic::power2::lemma_pow2_adds(64, 64);
                assert(vstd::arithmetic::power2::pow2(128) > u128::MAX);
                assert(false);
            }
        }
        let combinations = binomial(word_count, weight)?;
        let mut block = match combinations.checked_mul(variants) {
            Some(b) => b,
            None => return Err(RecoverError::CountOverflow),
        };
        let ghost full_block = block;
        assert(full_block == combinations * variants);
        proof {
            lemma_weight_blocks_step(n, weight as nat);
            lemma_block_is_pascal(n, weight as nat);
        }
        if weight == word_count {
            block = match block.checked_sub(2) {
                Some(b) => b,
                None => return Err(RecoverError::CountOverflow),
            };
        }
        proof {
            if reach && weight == tw {
                let c = pascal(n, tw);
                let p2 = pow_nat(2, tw);
                assert(combinations == c);
                assert(variants == p2);
                if tw < n {
                    assert(remaining_rank == tcr * p2 + tbits);
                    assert(tcr * p2 + tbits < c * p2) by (nonlinear_arith)
                        requires
                            tcr < c,
                            tbits < p2,
                    ;
                } else {
                    assert(c * p2 == p2) by (nonlinear_arith)
                        requires
                            c == 1,
                    ;
                }
                assert(remaining_rank < block);
            }
        }
        if remaining_rank >= block {
            remaining_rank = remaining_rank - block;
            weight = weight + 1;
            continue;
        }
        proof {
            lemma_pow_monotone(2, 0, weight as nat);
        }
        let (combination_rank, variant_rank) = if weight == word_count {
            (0u128, remaining_rank + 1)
        } else {
            (remaining_rank / variants, remaining_rank % variants)
        };
        proof {
            if reach {
                assert(weight == tw);
                lemma_pow_positive(2, weight as nat);
                if weight < word_count {
                    vstd::arithmetic::div_mod::lemma_fundamental_div_mod_converse(
                        remaining_rank as int,
                        pow_nat(2, weight as nat) as int,
                        tcr as int,
                        tbits as int,
                    );
                }
            }
        }
        let positions = unrank_combination(word_count, weight, combination_rank)?;
        let mut pattern = vec_of(CaseVariant::Lower, word_count);
        let mut index: usize = 0;
        while index < positions.len()
            invariant
                positions@.len() == weight,
                weight <= word_count,
                weight < 128,
                pattern@.len() == word_count,
                is_combination(word_count as nat, positions@),
                index <= weight,
                carries_bits(pattern@, positions@, variant_rank as nat, index as int),
                forall|j: int| index <= j < weight ==> #[trigger] pattern@[positions@[j] as int] == CaseVariant::Lower,
                forall|p: int|
                    0 <= p < word_count && !positions@.contains(p as usize) ==> #[trigger] pattern@[p]
                        == CaseVariant::Lower,
            decreases positions@.len() - index,
        {
            let position = positions[index];
            let bit = (variant_rank >> (index as u128)) % 2;
            proof {
                vstd::bits::lemma_u128_shr_is_div(variant_rank, index as u128);
                lemma_pow_nat_is_pow2(index as nat);
            }
            let ghost before = pattern@;
            if bit == 0 {
                pattern.set(position, CaseVariant::Title);
            } else {
                pattern.set(position, CaseVariant::Upper);
            }
            proof {
                assert forall|j: int| 0 <= j < weight && j != index implies #[trigger] pattern@[positions@[j] as int]
                    == before[positions@[j] as int] by {
                    if j < index {
                        assert(positions@[j] < positions@[index as int]);
                    } else {
                        assert(positions@[index as int] < positions@[j]);
                    }
                }
                assert forall|p: int|
                    0 <= p < word_count && !positions@.contains(p as usize) implies #[trigger] pattern@[p]
                        == CaseVariant::Lower by {
                    assert(p != position);
                }
            }
            index = index + 1;
        }
        proof {
            let v = variant_rank as nat;
            assert forall|p: int| 0 <= p < pattern@.len() implies (pattern@[p] != CaseVariant::Lower
                <==> positions@.contains(p as usize)) by {
                if positions@.contains(p as usize) {
                    let j = choose|j: int| 0 <= j < positions@.len() && positions@[j] == p as usize;
                    assert(pattern@[positions@[j] as int] != CaseVariant::Lower);
                }
            }
            lemma_raised_exact(pattern@, positions@);
            lemma_upper_bits_value(pattern@, positions@, v, weight as nat);
            assert(positions@.take(weight as int) =~= positions@);
            assert(raised_positions(pattern@).map_values(|p: int| p as usize) =~= positions@);
            lemma_pow_monotone(2, 0, weight as nat);
            if weight == word_count {
                lemma_full_combination(n, positions@);
                assert(min_nat(n, (n - n) as nat) == 0);
                assert(spec_binomial(n, 0) == 1);
                assert(combinations == 1);
                assert(variants == pow_nat(2, n));
                assert(combinations * variants == variants) by (nonlinear_arith)
                    requires
                        combinations == 1,
                ;
                assert(full_block == variants);
                assert(block == full_block - 2);
                assert(v < pow_nat(2, n));
                vstd::arithmetic::div_mod::lemma_small_mod(v, pow_nat(2, n));
                if all_variant(pattern@, CaseVariant::Title) {
                    assert forall|j: int| 0 <= j < positions@.len() implies #[trigger] pattern@[positions@[j] as int]
                        == CaseVariant::Title by {}
                    lemma_no_upper_bits(pattern@, positions@, n);
                    assert(false);
                }
                if all_variant(pattern@, CaseVariant::Upper) {
                    assert forall|j: int| 0 <= j < positions@.len() implies #[trigger] pattern@[positions@[j] as int]
                        == CaseVariant::Upper by {}
                    lemma_all_upper_bits(pattern@, positions@, n);
                    assert(false);
                }
            } else {
                vstd::arithmetic::div_mod::lemma_fundamental_div_mod(
                    remaining_rank as int,
                    pow_nat(2, weight as nat) as int,
                );
                vstd::arithmetic::div_mod::lemma_mod_pos_bound(remaining_rank as int, pow_nat(2, weight as nat) as int);
                vstd::arithmetic::div_mod::lemma_small_mod(v, pow_nat(2, weight as nat));
                if all_variant(pattern@, CaseVariant::Title) {
                    lemma_uniform_raised(pattern@, CaseVariant::Title);
                }
                if all_variant(pattern@, CaseVariant::Upper) {
                    lemma_uniform_raised(pattern@, CaseVariant::Upper);
                }
                assert(combination_rank as nat * pow_nat(2, weight as nat) == pow_nat(2, weight as nat)
                    * combination_rank as nat) by (nonlinear_arith);
            }
        }
        proof {
            if word_count >= 1 {
                assert forall|q: Seq<CaseVariant>|
                    q.len() == word_count && raised_positions(q).len() > 0 && #[trigger] case_rank(q) == rank implies q
                    == pattern@ by {
                    lemma_case_rank_injective(q, pattern@);
                }
            }
        }
        return Ok(pattern);
    }
    Err(RecoverError::CountOverflow)
}

/// A vector holding `count` copies of a variant
pub fn vec_of(variant: CaseVariant, count: usize) -> (v: Vec<CaseVariant>)
    ensures
        v@.len() == count,
        all_variant(v@, variant),
{
    let mut v: Vec<CaseVariant> = Vec::new();
    let mut i: usize = 0;
    while i < count
        invariant
            i <= count,
            v@.len() == i,
            all_variant(v@, variant),
        decreases count - i,
    {
        v.push(variant);
        i = i + 1;
    }
    v
}

/// Positions as integers
pub open spec fn as_ints(positions: Seq<usize>) -> Seq<int> {
    positions.map_values(|p: usize| p as int)
}

/// A power of two that fits in `u128` has an exponent below 128
proof fn lemma_power_two_fits_below(e: nat)
    requires
        pow_nat(2, e) <= u128::MAX,
    ensures
        e < 128,
{
    if e >= 128 {
        lemma_pow_monotone(2, 128, e);
        lemma_pow_nat_is_pow2(128);
        vstd::arithmetic::power2::lemma2_to64();
        vstd::arithmetic::power2::lemma_pow2_adds(64, 64);
        assert(vstd::arithmetic::power2::pow2(128) > u128::MAX);
    }
}

proof fn lemma_weight_blocks_step(n: nat, weight: nat)
    requires
        weight >= 1,
    ensures
        weight_blocks_before(n, weight + 1) == weight_blocks_before(n, weight) + spec_binomial(
            n,
            min_nat(weight, (n - weight) as nat),
        ) * pow_nat(2, weight),
{
}

/// Every subset size up to `n` is taken by some subset
proof fn lemma_pascal_positive(n: nat, k: nat)
    requires
        k <= n,
    ensures
        pascal(n, k) >= 1,
    decreases n,
{
    if k > 0 && n > 0 {
        lemma_pascal_positive((n - 1) as nat, (k - 1) as nat);
    }
}

/// Strictly between the ends there are at least two subsets
proof fn lemma_pascal_inner(n: nat, k: nat)
    requires
        1 <= k < n,
    ensures
        pascal(n, k) >= 2,
{
    lemma_pascal_positive((n - 1) as nat, (k - 1) as nat);
    lemma_pascal_positive((n - 1) as nat, k);
}

/// The block of patterns of weight `w` holds `C(n, w) * 2^w` patterns
proof fn lemma_block_is_pascal(n: nat, w: nat)
    requires
        w <= n,
    ensures
        spec_binomial(n, min_nat(w, (n - w) as nat)) == pascal(n, w),
{
    lemma_binomial_is_pascal(n, min_nat(w, (n - w) as nat));
    lemma_pascal_symmetric(n, w);
}

/// `e < 2^e`
proof fn lemma_pow2_exceeds(e: nat)
    ensures
        e < pow_nat(2, e),
    decreases e,
{
    if e > 0 {
        lemma_pow2_exceeds((e - 1) as nat);
        lemma_pow_positive(2, (e - 1) as nat);
    }
}

proof fn lemma_weight_blocks_monotone(n: nat, a: nat, b: nat)
    requires
        a <= b,
    ensures
        weight_blocks_before(n, a) <= weight_blocks_before(n, b),
    decreases b - a,
{
    if a < b {
        lemma_weight_blocks_monotone(n, a, (b - 1) as nat);
    }
}

/// The Title/UPPER bits of a prefix of the positions are at most those of all of them
proof fn lemma_upper_bits_prefix(pattern: Seq<CaseVariant>, positions: Seq<int>, i: nat)
    requires
        i <= positions.len(),
    ensures
        upper_bits(pattern, positions.take(i as int)) <= upper_bits(pattern, positions),
    decreases positions.len() - i,
{
    if i < positions.len() {
        lemma_upper_bits_prefix(pattern, positions, i + 1);
        assert(positions.take((i + 1) as int).drop_last() =~= positions.take(i as int));
    } else {
        assert(positions.take(i as int) =~= positions);
    }
}

/// No bit is set when no raised position is UPPER
proof fn lemma_upper_bits_zero(pattern: Seq<CaseVariant>, positions: Seq<int>)
    requires
        upper_bits(pattern, positions) == 0,
    ensures
        forall|j: int| 0 <= j < positions.len() ==> pattern[#[trigger] positions[j]] != CaseVariant::Upper,
    decreases positions.len(),
{
    if positions.len() > 0 {
        lemma_pow_positive(2, (positions.len() - 1) as nat);
        lemma_upper_bits_zero(pattern, positions.drop_last());
        assert forall|j: int| 0 <= j < positions.len() implies pattern[#[trigger] positions[j]] != CaseVariant::Upper by {
            if j < positions.len() - 1 {
                assert(positions.drop_last()[j] == positions[j]);
            }
        }
    }
}

/// Rank of a capitalization pattern, as `case_rank` orders them
pub fn case_pattern_rank(pattern: &Vec<CaseVariant>) -> (result: Result<u128, RecoverError>)
    ensures
        result matches Ok(rank) ==> rank == case_rank(pattern@),
        result matches Err(error) ==> error == RecoverError::CountOverflow,
        case_rank(pattern@) <= u128::MAX ==> result is Ok,
{
    let n = pattern.len();
    if all_of(pattern, CaseVariant::Title) {
        return Ok(0);
    }
    if all_of(pattern, CaseVariant::Upper) {
        return Ok(1);
    }
    let mut positions: Vec<usize> = Vec::new();
    let mut i: usize = 0;
    proof {
        assert(pattern@.take(0) =~= Seq::<CaseVariant>::empty());
        assert(as_ints(positions@) =~= raised_positions(pattern@.take(0)));
    }
    while i < n
        invariant
            n == pattern@.len(),
            i <= n,
            positions@.len() <= i,
            is_combination(n as nat, positions@),
            forall|j: int| 0 <= j < positions@.len() ==> positions@[j] < i,
            as_ints(positions@) == raised_positions(pattern@.take(i as int)),
        decreases n - i,
    {
        proof {
            assert(pattern@.take(i + 1).drop_last() =~= pattern@.take(i as int));
            assert(pattern@.take(i + 1).last() == pattern@[i as int]);
        }
        if pattern[i] != CaseVariant::Lower {
            positions.push(i);
        }
        proof {
            assert(as_ints(positions@) =~= raised_positions(pattern@.take(i + 1)));
        }
        i = i + 1;
    }
    let ghost raised = raised_positions(pattern@);
    proof {
        assert(pattern@.take(n as int) =~= pattern@);
        assert(raised.map_values(|p: int| p as usize) =~= positions@);
    }
    let weight = positions.len();
    let ghost fits = case_rank(pattern@) <= u128::MAX;
    let ghost bits = upper_bits(pattern@, raised);
    proof {
        assert(as_ints(positions@) =~= raised);
        assert(n >= 1) by {
            if n == 0 {
                assert(all_variant(pattern@, CaseVariant::Title));
            }
        }
        if weight == n {
            if bits == 0 {
                lemma_upper_bits_zero(pattern@, raised);
                lemma_full_combination(n as nat, positions@);
                lemma_raised_sound(pattern@);
                assert forall|j: int| 0 <= j < n implies pattern@[j] == CaseVariant::Title by {
                    assert(raised[j] == j);
                    assert(pattern@[raised[j]] != CaseVariant::Lower);
                    assert(pattern@[raised[j]] != CaseVariant::Upper);
                }
                assert(all_variant(pattern@, CaseVariant::Title));
            }
            assert(bits >= 1);
        }
        if fits {
            if weight >= 2 {
                let w1 = (weight - 1) as nat;
                lemma_weight_blocks_step(n as nat, w1);
                lemma_block_is_pascal(n as nat, w1);
                lemma_pascal_positive(n as nat, w1);
                let c = pascal(n as nat, w1);
                let p2 = pow_nat(2, w1);
                assert(p2 <= c * p2) by (nonlinear_arith)
                    requires
                        c >= 1,
                ;
            }
        }
    }
    let mut rank: u128 = 2;
    let mut prior: usize = 1;
    while prior < weight
        invariant
            weight <= n,
            n == pattern@.len(),
            1 <= prior,
            prior <= weight || prior == 1,
            rank == 2 + weight_blocks_before(n as nat, prior as nat),
            fits == (case_rank(pattern@) <= u128::MAX),
            fits ==> 2 + weight_blocks_before(n as nat, weight as nat) <= u128::MAX,
        decreases weight - prior,
    {
        proof {
            if fits {
                lemma_weight_blocks_monotone(n as nat, (prior + 1) as nat, weight as nat);
                lemma_weight_blocks_step(n as nat, prior as nat);
                lemma_block_is_pascal(n as nat, prior as nat);
                lemma_pascal_positive(n as nat, prior as nat);
                lemma_pow2_exceeds(prior as nat);
                let c = pascal(n as nat, prior as nat);
                let p2 = pow_nat(2, prior as nat);
                assert(p2 <= c * p2 && prior * c <= c * p2) by (nonlinear_arith)
                    requires
                        c >= 1,
                        prior < p2,
                ;
            }
        }
        let variants = match checked_power(2, prior) {
            Some(v) => v,
            None => return Err(RecoverError::CountOverflow),
        };
        proof {
            lemma_power_two_fits_below(prior as nat);
        }
        let block = match binomial(n, prior)?.checked_mul(variants) {
            Some(b) => b,
            None => return Err(RecoverError::CountOverflow),
        };
        proof {
            lemma_weight_blocks_step(n as nat, prior as nat);
            lemma_block_is_pascal(n as nat, prior as nat);
        }
        rank = match rank.checked_add(block) {
            Some(r) => r,
            None => return Err(RecoverError::CountOverflow),
        };
        prior = prior + 1;
    }
    proof {
        if weight >= 1 {
            assert(prior == weight);
        } else {
            assert(weight_blocks_before(n as nat, 0) == 0);
        }
        assert(rank == 2 + weight_blocks_before(n as nat, weight as nat));
    }
    let mut variant_rank: u128 = 0;
    let mut bit: usize = 0;
    let mut power: u128 = 1;
    proof {
        assert(positions@.take(0) =~= Seq::<usize>::empty());
        assert(as_ints(positions@.take(0)) =~= Seq::<int>::empty());
    }
    while bit < weight
        invariant
            weight == positions@.len(),
            forall|j: int| 0 <= j < positions@.len() ==> positions@[j] < n,
            n == pattern@.len(),
            bit <= weight,
            variant_rank == upper_bits(pattern@, as_ints(positions@.take(bit as int))),
            bit < weight ==> power == pow_nat(2, bit as nat),
            as_ints(positions@) == raised,
            bits == upper_bits(pattern@, raised),
            fits == (case_rank(pattern@) <= u128::MAX),
            fits ==> bits <= u128::MAX,
            fits && weight >= 2 ==> pow_nat(2, (weight - 1) as nat) <= u128::MAX,
        decreases weight - bit,
    {
        proof {
            let before = as_ints(positions@.take(bit as int));
            let after = as_ints(positions@.take(bit + 1));
            assert(after.drop_last() =~= before);
            assert(after.last() == positions@[bit as int] as int);
            assert(after.len() == bit + 1);
            assert(after =~= raised.take(bit + 1));
            lemma_upper_bits_prefix(pattern@, raised, (bit + 1) as nat);
            if bit + 1 < weight {
                lemma_pow_monotone(2, (bit + 1) as nat, (weight - 1) as nat);
            }
        }
        if pattern[positions[bit]] == CaseVariant::Upper {
            variant_rank = match variant_rank.checked_add(power) {
                Some(v) => v,
                None => return Err(RecoverError::CountOverflow),
            };
        }
        if bit + 1 < weight {
            power = match power.checked_mul(2) {
                Some(p) => p,
                None => return Err(RecoverError::CountOverflow),
            };
        }
        bit = bit + 1;
    }
    proof {
        assert(positions@.take(weight as int) =~= positions@);
        assert(as_ints(positions@) =~= raised);
    }
    if weight == n {
        let adjusted = match variant_rank.checked_sub(1) {
            Some(v) => v,
            None => return Err(RecoverError::CountOverflow),
        };
        return match rank.checked_add(adjusted) {
            Some(r) => Ok(r),
            None => Err(RecoverError::CountOverflow),
        };
    }
    let ghost cr = combination_rank(n as nat, positions@);
    proof {
        if fits {
            lemma_pow2_exceeds(weight as nat);
            lemma_pow_positive(2, weight as nat);
            let p2 = pow_nat(2, weight as nat);
            assert(weight * cr <= cr * p2) by (nonlinear_arith)
                requires
                    weight < p2,
            ;
            if cr == 0 {
                if weight >= 2 {
                    let w1 = (weight - 1) as nat;
                    lemma_weight_blocks_step(n as nat, w1);
                    lemma_block_is_pascal(n as nat, w1);
                    lemma_pascal_inner(n as nat, w1);
                    let c = pascal(n as nat, w1);
                    let q = pow_nat(2, w1);
                    assert(p2 == 2 * q);
                    assert(p2 <= c * q) by (nonlinear_arith)
                        requires
                            c >= 2,
                            p2 == 2 * q,
                    ;
                } else if weight == 1 {
                    assert(p2 == 2);
                }
            } else {
                assert(p2 <= cr * p2) by (nonlinear_arith)
                    requires
                        cr >= 1,
                ;
            }
        }
    }
    let combinations_before = rank_combination(n, &positions)?;
    let variants = match checked_power(2, weight) {
        Some(v) => v,
        None => return Err(RecoverError::CountOverflow),
    };
    let offset = match combinations_before.checked_mul(variants) {
        Some(o) => match o.checked_add(variant_rank) {
            Some(o) => o,
            None => return Err(RecoverError::CountOverflow),
        },
        None => return Err(RecoverError::CountOverflow),
    };
    match rank.checked_add(offset) {
        Some(r) => Ok(r),
        None => Err(RecoverError::CountOverflow),
    }
}

/// The raised positions of a pattern lie in it and are not lowercase
proof fn lemma_raised_sound(pattern: Seq<CaseVariant>)
    ensures
        forall|j: int|
            0 <= j < raised_positions(pattern).len() ==> 0 <= #[trigger] raised_positions(pattern)[j] < pattern.len()
                && pattern[raised_positions(pattern)[j]] != CaseVariant::Lower,
    decreases pattern.len(),
{
    if pattern.len() > 0 {
        let rest = pattern.drop_last();
        lemma_raised_sound(rest);
        assert forall|j: int| 0 <= j < raised_positions(rest).len() implies pattern[raised_positions(rest)[j]]
            == rest[raised_positions(rest)[j]] by {}
    }
}

/// Whether every element of the pattern is `variant`
pub fn all_of(pattern: &Vec<CaseVariant>, variant: CaseVariant) -> (all: bool)
    ensures
        all == all_variant(pattern@, variant),
{
    let mut i: usize = 0;
    while i < pattern.len()
        invariant
            i <= pattern@.len(),
            forall|j: int| 0 <= j < i ==> pattern@[j] == variant,
        decreases pattern@.len() - i,
    {
        if pattern[i] != variant {
            return false;
        }
        i = i + 1;
    }
    true
}

/// Variant chosen for a token that admits the variants in `allowed`:
/// lowercase first, then Title, then UPPER
pub open spec fn preferred_variant(allowed: u8) -> Option<CaseVariant> {
    if allowed & 1u8 != 0 {
        Some(CaseVariant::Lower)
    } else if allowed & 2u8 != 0 {
        Some(CaseVariant::Title)
    } else if allowed & 4u8 != 0 {
        Some(CaseVariant::Upper)
    } else {
        None
    }
}

/// The preferred variant of every token
pub open spec fn preferred_pattern(variants: Seq<u8>) -> Seq<CaseVariant> {
    Seq::new(variants.len(), |i: int| preferred_variant(variants[i]).unwrap())
}

/// Lowest-ranked capitalization pattern consistent with the variants each
/// parsed token admits; `None` when only the lowercase pattern fits
///
/// Uniform Title, then uniform UPPER, are taken when every token admits
/// them; otherwise the rank is that of each token's preferred variant.
pub fn minimum_case_rank(variants: &Vec<u8>) -> (result: Result<Option<u128>, RecoverError>)
    requires
        variants@.len() < 128,
    ensures
        (forall|j: int| 0 <= j < variants@.len() ==> #[trigger] (variants@[j] & 2u8) != 0) ==> result
            == Ok::<Option<u128>, RecoverError>(Some(0)),
        !(forall|j: int| 0 <= j < variants@.len() ==> #[trigger] (variants@[j] & 2u8) != 0) && (forall|j: int|
            0 <= j < variants@.len() ==> #[trigger] (variants@[j] & 4u8) != 0) ==> result == Ok::<
            Option<u128>,
            RecoverError,
        >(Some(1)),
        !(forall|j: int| 0 <= j < variants@.len() ==> #[trigger] (variants@[j] & 2u8) != 0) && !(forall|j: int|
            0 <= j < variants@.len() ==> #[trigger] (variants@[j] & 4u8) != 0) ==> (result matches Ok(Some(rank))
            ==> (forall|j: int| 0 <= j < variants@.len() ==> #[trigger] preferred_variant(variants@[j]) is Some)
            && rank == case_rank(preferred_pattern(variants@)) && raised_positions(preferred_pattern(variants@)).len()
            > 0),
        result matches Ok(None) ==> forall|j: int|
            0 <= j < variants@.len() ==> #[trigger] preferred_variant(variants@[j]) == Some(CaseVariant::Lower),
        result matches Err(error) ==> error == RecoverError::CountOverflow,
        (forall|j: int| 0 <= j < variants@.len() ==> #[trigger] preferred_variant(variants@[j]) is Some) && case_rank(
            preferred_pattern(variants@),
        ) <= u128::MAX ==> result is Ok,
{
    let title = variant_bit(CaseVariant::Title);
    let upper = variant_bit(CaseVariant::Upper);
    if all_have(variants, title) {
        return Ok(Some(0));
    }
    if all_have(variants, upper) {
        return Ok(Some(1));
    }
    let lower = variant_bit(CaseVariant::Lower);
    let mut pattern: Vec<CaseVariant> = Vec::new();
    let mut i: usize = 0;
    let mut all_lower = true;
    while i < variants.len()
        invariant
            lower == 1u8 && title == 2u8 && upper == 4u8,
            i <= variants@.len(),
            pattern@.len() == i,
            forall|j: int| 0 <= j < i ==> #[trigger] preferred_variant(variants@[j]) == Some(pattern@[j]),
            all_lower <==> forall|j: int| 0 <= j < i ==> #[trigger] pattern@[j] == CaseVariant::Lower,
        decreases variants@.len() - i,
    {
        let allowed = variants[i];
        let ghost before = pattern@;
        let ghost was_lower = all_lower;
        if allowed & lower != 0 {
            pattern.push(CaseVariant::Lower);
        } else if allowed & title != 0 {
            pattern.push(CaseVariant::Title);
            all_lower = false;
            assert(pattern@[i as int] != CaseVariant::Lower);
        } else if allowed & upper != 0 {
            pattern.push(CaseVariant::Upper);
            all_lower = false;
            assert(pattern@[i as int] != CaseVariant::Lower);
        } else {
            proof {
                assert(preferred_variant(variants@[i as int]) is None);
            }
            return Err(RecoverError::CountOverflow);
        }
        proof {
            assert forall|j: int| 0 <= j < i implies #[trigger] pattern@[j] == before[j] by {}
            if all_lower {
                assert forall|j: int| 0 <= j < i + 1 implies #[trigger] pattern@[j] == CaseVariant::Lower by {
                    if j < i {
                        assert(before[j] == CaseVariant::Lower);
                    }
                }
            } else if was_lower {
                assert(pattern@[i as int] != CaseVariant::Lower);
            } else {
                let j = choose|j: int| 0 <= j < i && before[j] != CaseVariant::Lower;
                assert(pattern@[j] != CaseVariant::Lower);
            }
        }
        i = i + 1;
    }
    proof {
        assert(pattern@ =~= preferred_pattern(variants@));
    }
    if all_lower {
        return Ok(None);
    }
    proof {
        let j = choose|j: int| 0 <= j < variants@.len() && pattern@[j] != CaseVariant::Lower;
        lemma_raised_exists(pattern@, j);
    }
    let rank = case_pattern_rank(&pattern)?;
    Ok(Some(rank))
}

fn all_have(variants: &Vec<u8>, bit: u8) -> (all: bool)
    ensures
        all == forall|j: int| 0 <= j < variants@.len() ==> #[trigger] (variants@[j] & bit) != 0,
{
    let mut i: usize = 0;
    while i < variants.len()
        invariant
            i <= variants@.len(),
            forall|j: int| 0 <= j < i ==> #[trigger] (variants@[j] & bit) != 0,
        decreases variants@.len() - i,
    {
        if variants[i] & bit == 0 {
            return false;
        }
        i = i + 1;
    }
    true
}

} // verus!
