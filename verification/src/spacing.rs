//! Leading-space patterns inserted between tokens

use vstd::arithmetic::power2::{
    lemma2_to64, lemma_pow2_adds, lemma_pow2_pos, lemma_pow2_strictly_increases, pow2,
};
use vstd::bits::lemma_u128_shr_is_div;
use vstd::prelude::*;

use crate::bytes::deep;
use crate::error::RecoverError;
use crate::settings::SpacingMode;

verus! {

/// Whether a list of `count` masks of 16 bytes each is larger than any
/// allocation can be (more than `isize::MAX` bytes)
pub open spec fn too_many_masks(count: nat) -> bool {
    count > usize::MAX as nat / 32
}

/// Whether token `index` carries a leading space under `mask`
pub open spec fn has_space(mask: u128, index: nat) -> bool {
    (mask as nat / pow2(index)) % 2 == 1
}

/// The pattern with a space before every token except the first
pub open spec fn between_mask(word_count: nat) -> nat {
    if word_count <= 1 {
        0
    } else {
        (pow2(word_count) - 2) as nat
    }
}

/// Number of token positions below `n` where two masks disagree
pub open spec fn mask_distance(a: u128, b: u128, n: nat) -> nat
    decreases n,
{
    if n == 0 {
        0
    } else {
        mask_distance(a, b, (n - 1) as nat) + if has_space(a, (n - 1) as nat) != has_space(b, (n - 1) as nat) {
            1nat
        } else {
            0nat
        }
    }
}

/// Coldcard preference: no spaces first, then spaces between words, then by
/// distance from the between-words pattern
pub open spec fn coldcard_preference(mask: u128, word_count: nat) -> nat {
    if mask == 0 {
        0
    } else if mask as nat == between_mask(word_count) {
        1
    } else {
        2 + mask_distance(mask, between_mask(word_count) as u128, word_count)
    }
}

/// `a` comes before `b` by (preference, mask)
pub open spec fn coldcard_before(a: u128, b: u128, word_count: nat) -> bool {
    coldcard_preference(a, word_count) < coldcard_preference(b, word_count) || (coldcard_preference(a, word_count)
        == coldcard_preference(b, word_count) && a < b)
}

/// Strictly increasing by (preference, mask)
pub open spec fn coldcard_sorted(patterns: Seq<u128>, word_count: nat) -> bool {
    forall|i: int, j: int|
        #![trigger patterns[i], patterns[j]]
        0 <= i < j < patterns.len() ==> coldcard_before(patterns[i], patterns[j], word_count)
}

/// Every spacing pattern a mode tries, in its order of preference
pub open spec fn mode_patterns(word_count: nat, mode: SpacingMode, patterns: Seq<u128>) -> bool {
    let between = between_mask(word_count) as u128;
    match mode {
        SpacingMode::Concatenated => patterns == seq![0u128],
        SpacingMode::Between => patterns == seq![between],
        SpacingMode::Both => if between == 0 {
            patterns == seq![0u128]
        } else {
            patterns == seq![0u128, between]
        },
        SpacingMode::Coldcard => coldcard_sorted(patterns, word_count) && forall|m: u128|
            (m < pow2(word_count) <==> patterns.contains(m)),
    }
}

/// The spacing patterns a mode tries, without the all-concatenated pattern
/// when an earlier search already exhausted it
pub open spec fn spacing_patterns_spec(
    word_count: nat,
    mode: SpacingMode,
    concatenated_already_tried: bool,
    patterns: Seq<u128>,
) -> bool {
    exists|full: Seq<u128>|
        #![trigger mode_patterns(word_count, mode, full)]
        mode_patterns(word_count, mode, full) && patterns == if concatenated_already_tried {
            full.filter(|m: u128| m != 0)
        } else {
            full
        }
}

/// Two lists sorted by (preference, mask) with the same masks are equal
pub proof fn lemma_coldcard_sorted_unique(s: Seq<u128>, t: Seq<u128>, word_count: nat)
    requires
        coldcard_sorted(s, word_count),
        coldcard_sorted(t, word_count),
        forall|m: u128| s.contains(m) <==> t.contains(m),
    ensures
        s == t,
    decreases s.len(),
{
    if s.len() == 0 {
        if t.len() > 0 {
            assert(t.contains(t[0]));
        }
        assert(s =~= t);
    } else {
        assert(s.contains(s[0]));
        assert(t.len() > 0);
        assert(t.contains(t[0]));
        let i = choose|i: int| 0 <= i < s.len() && s[i] == t[0];
        let j = choose|j: int| 0 <= j < t.len() && t[j] == s[0];
        if i > 0 && j > 0 {
            assert(coldcard_before(s[0], s[i], word_count));
            assert(coldcard_before(t[0], t[j], word_count));
            assert(false);
        }
        assert(s[0] == t[0]);
        let rs = s.drop_first();
        let rt = t.drop_first();
        assert forall|m: u128| rs.contains(m) <==> rt.contains(m) by {
            if rs.contains(m) {
                let k = choose|k: int| 0 <= k < rs.len() && rs[k] == m;
                assert(s[k + 1] == m);
                assert(coldcard_before(s[0], s[k + 1], word_count));
                assert(s.contains(m));
                let l = choose|l: int| 0 <= l < t.len() && t[l] == m;
                assert(l != 0);
                assert(rt[l - 1] == m);
            }
            if rt.contains(m) {
                let k = choose|k: int| 0 <= k < rt.len() && rt[k] == m;
                assert(t[k + 1] == m);
                assert(coldcard_before(t[0], t[k + 1], word_count));
                assert(t.contains(m));
                let l = choose|l: int| 0 <= l < s.len() && s[l] == m;
                assert(l != 0);
                assert(rs[l - 1] == m);
            }
        }
        assert(coldcard_sorted(rs, word_count)) by {
            assert forall|a: int, b: int| 0 <= a < b < rs.len() implies coldcard_before(rs[a], rs[b], word_count) by {
                assert(rs[a] == s[a + 1] && rs[b] == s[b + 1]);
            }
        }
        assert(coldcard_sorted(rt, word_count)) by {
            assert forall|a: int, b: int| 0 <= a < b < rt.len() implies coldcard_before(rt[a], rt[b], word_count) by {
                assert(rt[a] == t[a + 1] && rt[b] == t[b + 1]);
            }
        }
        lemma_coldcard_sorted_unique(rs, rt, word_count);
        assert(s =~= t) by {
            assert forall|k: int| 0 <= k < s.len() implies s[k] == t[k] by {
                if k > 0 {
                    assert(s[k] == rs[k - 1] && t[k] == rt[k - 1]);
                }
            }
        }
    }
}

/// The spacing patterns of a mode are determined: one list and one order
pub proof fn lemma_spacing_patterns_unique(
    word_count: nat,
    mode: SpacingMode,
    concatenated_already_tried: bool,
    a: Seq<u128>,
    b: Seq<u128>,
)
    requires
        spacing_patterns_spec(word_count, mode, concatenated_already_tried, a),
        spacing_patterns_spec(word_count, mode, concatenated_already_tried, b),
    ensures
        a == b,
{
    let fa = choose|full: Seq<u128>|
        mode_patterns(word_count, mode, full) && a == if concatenated_already_tried {
            full.filter(|m: u128| m != 0)
        } else {
            full
        };
    let fb = choose|full: Seq<u128>|
        mode_patterns(word_count, mode, full) && b == if concatenated_already_tried {
            full.filter(|m: u128| m != 0)
        } else {
            full
        };
    if mode == SpacingMode::Coldcard {
        assert forall|m: u128| fa.contains(m) <==> fb.contains(m) by {
            assert(m < pow2(word_count) <==> fa.contains(m));
            assert(m < pow2(word_count) <==> fb.contains(m));
        }
        lemma_coldcard_sorted_unique(fa, fb, word_count);
    }
    assert(fa == fb);
}

/// Every pattern of a mode's list is a mask the mode allows
pub proof fn lemma_spacing_patterns_allowed(
    word_count: nat,
    mode: SpacingMode,
    concatenated_already_tried: bool,
    patterns: Seq<u128>,
    mask: u128,
)
    requires
        spacing_patterns_spec(word_count, mode, concatenated_already_tried, patterns),
        patterns.contains(mask),
    ensures
        mask_allowed(word_count, mode, concatenated_already_tried, mask),
{
    let full = choose|full: Seq<u128>|
        mode_patterns(word_count, mode, full) && patterns == if concatenated_already_tried {
            full.filter(|m: u128| m != 0)
        } else {
            full
        };
    let k = choose|k: int| 0 <= k < patterns.len() && patterns[k] == mask;
    if concatenated_already_tried {
        let keep = |m: u128| m != 0;
        assert(full.filter(keep).contains(mask));
        full.lemma_filter_contains_rev(keep, mask);
        full.lemma_filter_pred(keep, k);
    }
    assert(full.contains(mask));
    let i = choose|i: int| 0 <= i < full.len() && full[i] == mask;
    if mode == SpacingMode::Both {
        assert(full[i] == full[i]);
    }
}

/// The length of joined tokens depends only on their lengths and the mask
pub proof fn lemma_spaced_len(a: Seq<Seq<u8>>, b: Seq<Seq<u8>>, mask: u128)
    requires
        a.len() == b.len(),
        forall|k: int| 0 <= k < a.len() ==> (#[trigger] a[k]).len() == b[k].len(),
    ensures
        spaced(a, mask).len() == spaced(b, mask).len(),
    decreases a.len(),
{
    if a.len() > 0 {
        lemma_spaced_len(a.drop_last(), b.drop_last(), mask);
        assert(a.last().len() == b.last().len());
    }
}

/// Tokens of known lengths are recovered from their joined bytes
pub proof fn lemma_spaced_injective(a: Seq<Seq<u8>>, b: Seq<Seq<u8>>, mask: u128)
    requires
        a.len() == b.len(),
        forall|k: int| 0 <= k < a.len() ==> (#[trigger] a[k]).len() == b[k].len(),
        spaced(a, mask) == spaced(b, mask),
    ensures
        a == b,
    decreases a.len(),
{
    if a.len() == 0 {
        assert(a =~= b);
    } else {
        let ra = a.drop_last();
        let rb = b.drop_last();
        lemma_spaced_len(ra, rb, mask);
        let sp = if has_space(mask, (a.len() - 1) as nat) {
            seq![32u8]
        } else {
            Seq::<u8>::empty()
        };
        let whole = spaced(a, mask);
        assert(whole == spaced(ra, mask) + sp + a.last());
        assert(spaced(b, mask) == spaced(rb, mask) + sp + b.last());
        let n1 = spaced(ra, mask).len();
        assert(a.last() =~= whole.subrange((n1 + sp.len()) as int, whole.len() as int));
        assert(b.last() =~= whole.subrange((n1 + sp.len()) as int, whole.len() as int));
        assert(spaced(ra, mask) =~= whole.subrange(0, n1 as int));
        assert(spaced(rb, mask) =~= whole.subrange(0, n1 as int));
        lemma_spaced_injective(ra, rb, mask);
        assert(a =~= b) by {
            assert forall|k: int| 0 <= k < a.len() implies a[k] == b[k] by {
                if k < a.len() - 1 {
                    assert(ra[k] == a[k] && rb[k] == b[k]);
                }
            }
        }
    }
}

proof fn lemma_mask_distance_bound(a: u128, b: u128, n: nat)
    ensures
        mask_distance(a, b, n) <= n,
    decreases n,
{
    if n > 0 {
        lemma_mask_distance_bound(a, b, (n - 1) as nat);
    }
}

fn distance_to(mask: u128, between: u128, word_count: usize) -> (distance: u128)
    requires
        word_count < 128,
    ensures
        distance == mask_distance(mask, between, word_count as nat),
        distance <= word_count,
{
    let mut distance: u128 = 0;
    let mut i: usize = 0;
    while i < word_count
        invariant
            i <= word_count < 128,
            distance == mask_distance(mask, between, i as nat),
            distance <= i,
        decreases word_count - i,
    {
        let a = (mask >> (i as u128)) % 2;
        let b = (between >> (i as u128)) % 2;
        proof {
            lemma_u128_shr_is_div(mask, i as u128);
            lemma_u128_shr_is_div(between, i as u128);
        }
        if a != b {
            distance = distance + 1;
        }
        i = i + 1;
    }
    distance
}

/// A mask the mode tries: no space, spaces between words, or (Coldcard) any
/// leading-space pattern of the words; never the all-concatenated pattern
/// when an earlier search exhausted it
pub open spec fn mask_allowed(word_count: nat, mode: SpacingMode, concatenated_already_tried: bool, mask: u128) -> bool {
    let between = between_mask(word_count) as u128;
    &&& !(concatenated_already_tried && mask == 0)
    &&& match mode {
        SpacingMode::Concatenated => mask == 0,
        SpacingMode::Between => mask == between,
        SpacingMode::Both => mask == 0 || mask == between,
        SpacingMode::Coldcard => mask < pow2(word_count),
    }
}

/// The pattern list of a mode exists: fewer than 128 words, and for Coldcard
/// a list that some allocation can hold
pub open spec fn patterns_exist(word_count: nat, mode: SpacingMode) -> bool {
    word_count < 128 && !(mode == SpacingMode::Coldcard && too_many_masks(pow2(word_count)))
}

/// Spacing patterns in preference order: every leading-space combination for
/// Coldcard, optionally without the all-concatenated pattern
pub fn spacing_patterns(word_count: usize, mode: SpacingMode, concatenated_already_tried: bool) -> (result:
    Result<Vec<u128>, RecoverError>)
    ensures
        match result {
            Ok(patterns) => word_count < 128 && spacing_patterns_spec(
                word_count as nat,
                mode,
                concatenated_already_tried,
                patterns@,
            ),
            Err(error) => error == RecoverError::CountOverflow && (word_count >= 128 || (mode
                == SpacingMode::Coldcard && too_many_masks(pow2(word_count as nat)))),
        },
        result is Ok <==> patterns_exist(word_count as nat, mode),
        result matches Ok(patterns) ==> forall|m: u128|
            #[trigger] patterns@.contains(m) <==> mask_allowed(word_count as nat, mode, concatenated_already_tried, m),
{
    if word_count >= 128 {
        return Err(RecoverError::CountOverflow);
    }
    proof {
        lemma_pow2_pos(word_count as nat);
        lemma_pow2_fits(word_count as nat);
    }
    let combinations: u128 = power_of_two(word_count);
    let between: u128 = if word_count <= 1 {
        0
    } else {
        proof {
            lemma_pow2_strictly_increases(1, word_count as nat);
            lemma2_to64();
        }
        combinations - 2
    };
    let full: Vec<u128> = match mode {
        SpacingMode::Concatenated => {
            let mut v = Vec::new();
            v.push(0u128);
            proof {
                assert(v@ =~= seq![0u128]);
            }
            v
        },
        SpacingMode::Between => {
            let mut v = Vec::new();
            v.push(between);
            proof {
                assert(v@ =~= seq![between]);
            }
            v
        },
        SpacingMode::Both => {
            let mut v = Vec::new();
            v.push(0u128);
            if between != 0 {
                v.push(between);
                proof {
                    assert(v@ =~= seq![0u128, between]);
                }
            } else {
                proof {
                    assert(v@ =~= seq![0u128]);
                }
            }
            v
        },
        SpacingMode::Coldcard => {
            if combinations > (usize::MAX as u128) / 32 {
                return Err(RecoverError::CountOverflow);
            }
            coldcard_patterns(word_count, combinations, between)
        },
    };
    proof {
        assert(mode_patterns(word_count as nat, mode, full@));
        assert forall|m: u128| #[trigger] full@.contains(m) <==> mask_allowed(word_count as nat, mode, false, m) by {
            if mode != SpacingMode::Coldcard && mask_allowed(word_count as nat, mode, false, m) {
                if m == between {
                    if mode == SpacingMode::Both {
                        assert(full@[full@.len() - 1] == m);
                    } else {
                        assert(full@[0] == m);
                    }
                } else {
                    assert(full@[0] == m);
                }
            }
        }
    }
    if !concatenated_already_tried {
        return Ok(full);
    }
    let mut kept: Vec<u128> = Vec::new();
    let mut i: usize = 0;
    while i < full.len()
        invariant
            i <= full@.len(),
            kept@ == full@.take(i as int).filter(|m: u128| m != 0),
            forall|m: u128| #[trigger] kept@.contains(m) <==> (full@.take(i as int).contains(m) && m != 0),
        decreases full@.len() - i,
    {
        proof {
            assert(full@.take(i + 1).drop_last() =~= full@.take(i as int));
            reveal_with_fuel(Seq::filter, 1);
        }
        let ghost before = kept@;
        if full[i] != 0 {
            kept.push(full[i]);
        }
        proof {
            assert forall|m: u128| #[trigger] kept@.contains(m) <==> (full@.take(i + 1).contains(m) && m != 0) by {
                if full@.take(i + 1).contains(m) && m != 0 {
                    let k = choose|k: int| 0 <= k < i + 1 && #[trigger] full@.take(i + 1)[k] == m;
                    if k < i {
                        assert(full@.take(i as int)[k] == m);
                        assert(before.contains(m));
                        let t = choose|t: int| 0 <= t < before.len() && before[t] == m;
                        assert(kept@[t] == m);
                    } else {
                        assert(kept@[kept@.len() - 1] == m);
                    }
                }
                if kept@.contains(m) {
                    let t = choose|t: int| 0 <= t < kept@.len() && kept@[t] == m;
                    if t < before.len() {
                        assert(before[t] == m);
                        assert(before.contains(m));
                        let k = choose|k: int| 0 <= k < i && #[trigger] full@.take(i as int)[k] == m;
                        assert(full@.take(i + 1)[k] == m);
                    } else {
                        assert(full@.take(i + 1)[i as int] == m);
                    }
                }
            }
        }
        i = i + 1;
    }
    proof {
        assert(full@.take(full@.len() as int) =~= full@);
    }
    Ok(kept)
}

pub(crate) proof fn lemma_pow2_fits(n: nat)
    requires
        n < 128,
    ensures
        pow2(n) <= u128::MAX,
{
    if n < 127 {
        lemma_pow2_strictly_increases(n, 127);
    }
    lemma2_to64();
    lemma_pow2_adds(64, 32);
    lemma_pow2_adds(96, 31);
    assert(pow2(96) == 0x1_0000_0000_0000_0000 * 0x1_0000_0000);
    assert(pow2(127) == pow2(96) * 0x8000_0000);
    assert(pow2(127) == 0x8000_0000_0000_0000_0000_0000_0000_0000);
}

/// `2^n` for `n < 128`
pub fn power_of_two(n: usize) -> (value: u128)
    requires
        n < 128,
    ensures
        value == pow2(n as nat),
{
    let mut value: u128 = 1;
    let mut i: usize = 0;
    proof {
        lemma2_to64();
    }
    while i < n
        invariant
            i <= n < 128,
            value == pow2(i as nat),
        decreases n - i,
    {
        proof {
            vstd::arithmetic::power2::lemma_pow2_unfold((i + 1) as nat);
            lemma_pow2_fits((i + 1) as nat);
        }
        value = value * 2;
        i = i + 1;
    }
    value
}

fn coldcard_patterns(word_count: usize, combinations: u128, between: u128) -> (patterns: Vec<u128>)
    requires
        word_count < 128,
        combinations == pow2(word_count as nat),
        combinations <= usize::MAX as u128 / 32,
        between as nat == between_mask(word_count as nat),
    ensures
        coldcard_sorted(patterns@, word_count as nat),
        forall|m: u128| (m < pow2(word_count as nat) <==> patterns@.contains(m)),
{
    proof {
        lemma2_to64();
    }
    let mut keys: Vec<u128> = Vec::new();
    let mut mask: u128 = 0;
    while mask < combinations
        invariant
            combinations == pow2(word_count as nat),
            combinations <= usize::MAX as u128 / 32,
            word_count < 128,
            mask <= combinations,
            between as nat == between_mask(word_count as nat),
            keys@.len() == mask,
            forall|m: int| 0 <= m < mask ==> keys@[m] == coldcard_preference(m as u128, word_count as nat),
            forall|m: int| 0 <= m < mask ==> keys@[m] <= 2 + word_count,
        decreases combinations - mask,
    {
        let key: u128 = if mask == 0 {
            0
        } else if mask == between {
            1
        } else {
            2 + distance_to(mask, between, word_count)
        };
        proof {
            lemma_mask_distance_bound(mask, between, word_count as nat);
            assert(key == coldcard_preference(mask, word_count as nat));
        }
        keys.push(key);
        mask = mask + 1;
    }
    let mut patterns: Vec<u128> = Vec::new();
    let last_key: u128 = 2 + word_count as u128;
    let mut key: u128 = 0;
    while key <= last_key
        invariant
            combinations == pow2(word_count as nat),
            combinations <= usize::MAX as u128 / 32,
            keys@.len() == combinations,
            forall|m: int| 0 <= m < combinations ==> keys@[m] == coldcard_preference(m as u128, word_count as nat),
            forall|m: int| 0 <= m < combinations ==> keys@[m] <= last_key,
            forall|m: int| 0 <= m < combinations ==> keys@[m] <= 2 + word_count,
            last_key == 2 + word_count,
            key <= last_key + 1,
            coldcard_sorted(patterns@, word_count as nat),
            forall|i: int| 0 <= i < patterns@.len() ==> patterns@[i] < combinations,
            forall|i: int| 0 <= i < patterns@.len() ==> keys@[patterns@[i] as int] < key,
            forall|m: u128| m < combinations && keys@[m as int] < key ==> patterns@.contains(m),
        decreases last_key + 1 - key,
    {
        let ghost before = patterns@;
        let mut m: u128 = 0;
        while m < combinations
            invariant
                combinations == pow2(word_count as nat),
                combinations <= usize::MAX as u128 / 32,
                keys@.len() == combinations,
                forall|x: int| 0 <= x < combinations ==> keys@[x] == coldcard_preference(x as u128, word_count as nat),
                key <= last_key,
                m <= combinations,
                coldcard_sorted(patterns@, word_count as nat),
                patterns@.len() >= before.len(),
                forall|i: int| 0 <= i < before.len() ==> patterns@[i] == before[i],
                forall|i: int| 0 <= i < before.len() ==> keys@[before[i] as int] < key,
                forall|i: int| before.len() <= i < patterns@.len() ==> keys@[patterns@[i] as int] == key && patterns@[i] < m,
                forall|i: int| 0 <= i < patterns@.len() ==> patterns@[i] < combinations,
                forall|x: u128| x < m && keys@[x as int] == key ==> patterns@.contains(x),
                forall|x: u128| x < combinations && keys@[x as int] < key ==> before.contains(x),
            decreases combinations - m,
        {
            if keys[m as usize] == key {
                proof {
                    assert forall|i: int, j: int| 0 <= i < j < patterns@.push(m).len() implies coldcard_before(
                        #[trigger] patterns@.push(m)[i],
                        #[trigger] patterns@.push(m)[j],
                        word_count as nat,
                    ) by {
                        if j == patterns@.len() {
                            if i < before.len() {
                                assert(keys@[before[i] as int] < key);
                            }
                        }
                    }
                    assert forall|x: u128| x < m + 1 && keys@[x as int] == key implies patterns@.push(m).contains(x) by {
                        if x == m {
                            assert(patterns@.push(m)[patterns@.len() as int] == m);
                        } else {
                            let k = choose|k: int| 0 <= k < patterns@.len() && patterns@[k] == x;
                            assert(patterns@.push(m)[k] == x);
                        }
                    }
                    assert forall|x: u128| x < combinations && keys@[x as int] < key implies before.contains(x) by {}
                }
                patterns.push(m);
            }
            m = m + 1;
        }
        proof {
            assert forall|x: u128| x < combinations && keys@[x as int] < key + 1 implies patterns@.contains(x) by {
                if keys@[x as int] < key {
                    assert(before.contains(x));
                    let k = choose|k: int| 0 <= k < before.len() && before[k] == x;
                    assert(patterns@[k] == x);
                } else {
                    assert(x < m);
                }
            }
            assert forall|i: int| 0 <= i < patterns@.len() implies keys@[patterns@[i] as int] < key + 1 by {
                if i < before.len() {
                    assert(patterns@[i] == before[i]);
                }
            }
        }
        key = key + 1;
    }
    proof {
        assert forall|x: u128| (x < pow2(word_count as nat) <==> patterns@.contains(x)) by {
            if patterns@.contains(x) {
                let k = choose|k: int| 0 <= k < patterns@.len() && patterns@[k] == x;
            }
        }
    }
    patterns
}

/// Token bytes joined with a leading space wherever the mask has a bit set
pub open spec fn spaced(words: Seq<Seq<u8>>, mask: u128) -> Seq<u8>
    decreases words.len(),
{
    if words.len() == 0 {
        Seq::empty()
    } else {
        spaced(words.drop_last(), mask) + (if has_space(mask, (words.len() - 1) as nat) {
            seq![32u8]
        } else {
            Seq::<u8>::empty()
        }) + words.last()
    }
}

/// Join tokens, inserting a space before each token whose mask bit is set
pub fn apply_spacing(words: &Vec<Vec<u8>>, mask: u128) -> (output: Vec<u8>)
    requires
        words@.len() < 128,
    ensures
        output@ == spaced(deep(words@), mask),
{
    let mut output: Vec<u8> = Vec::new();
    let mut index: usize = 0;
    while index < words.len()
        invariant
            words@.len() < 128,
            index <= words@.len(),
            output@ == spaced(deep(words@).take(index as int), mask),
        decreases words@.len() - index,
    {
        proof {
            lemma_u128_shr_is_div(mask, index as u128);
            let t = deep(words@).take(index + 1);
            assert(t.drop_last() =~= deep(words@).take(index as int));
            assert(t.last() == words@[index as int]@);
        }
        if (mask >> (index as u128)) % 2 == 1 {
            output.push(32u8);
        }
        let word = &words[index];
        let mut j: usize = 0;
        let ghost prefix = output@;
        while j < word.len()
            invariant
                j <= word@.len(),
                output@ == prefix + word@.take(j as int),
            decreases word@.len() - j,
        {
            output.push(word[j]);
            j = j + 1;
            assert(output@ =~= prefix + word@.take(j as int));
        }
        assert(word@.take(word@.len() as int) =~= word@);
        index = index + 1;
        proof {
            let t = deep(words@).take(index as int);
            if has_space(mask, (index - 1) as nat) {
                assert(output@ =~= spaced(t.drop_last(), mask) + seq![32u8] + t.last());
            } else {
                assert(output@ =~= spaced(t.drop_last(), mask) + Seq::<u8>::empty() + t.last());
            }
        }
    }
    assert(deep(words@).take(words@.len() as int) =~= deep(words@));
    output
}

/// Position of a mask in the pattern list of a spacing mode
pub fn spacing_rank(word_count: usize, mode: SpacingMode, concatenated_already_tried: bool, mask: u128) -> (result:
    Result<u128, RecoverError>)
    ensures
        match result {
            Ok(rank) => exists|patterns: Seq<u128>|
                #![trigger spacing_patterns_spec(word_count as nat, mode, concatenated_already_tried, patterns)]
                spacing_patterns_spec(word_count as nat, mode, concatenated_already_tried, patterns)
                    && rank < patterns.len() && patterns[rank as int] == mask && forall|j: int|
                    0 <= j < rank ==> patterns[j] != mask,
            Err(error) => error == RecoverError::CountOverflow,
        },
        result is Ok <==> patterns_exist(word_count as nat, mode) && mask_allowed(
            word_count as nat,
            mode,
            concatenated_already_tried,
            mask,
        ),
{
    let patterns = spacing_patterns(word_count, mode, concatenated_already_tried)?;
    let mut i: usize = 0;
    while i < patterns.len()
        invariant
            i <= patterns@.len(),
            spacing_patterns_spec(word_count as nat, mode, concatenated_already_tried, patterns@),
            forall|j: int| 0 <= j < i ==> patterns@[j] != mask,
            patterns_exist(word_count as nat, mode),
            forall|m: u128|
                #[trigger] patterns@.contains(m) <==> mask_allowed(word_count as nat, mode, concatenated_already_tried, m),
        decreases patterns@.len() - i,
    {
        if patterns[i] == mask {
            proof {
                assert(spacing_patterns_spec(word_count as nat, mode, concatenated_already_tried, patterns@));
                assert(patterns@[(i as u128) as int] == mask);
                assert(patterns@.contains(mask));
                assert(forall|j: int| 0 <= j < (i as u128) ==> patterns@[j] != mask);
            }
            return Ok(i as u128);
        }
        i = i + 1;
    }
    proof {
        if patterns@.contains(mask) {
            let j = choose|j: int| 0 <= j < patterns@.len() && patterns@[j] == mask;
        }
    }
    Err(RecoverError::CountOverflow)
}

} // verus!
