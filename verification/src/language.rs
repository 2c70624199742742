//! Exact per-phase candidate counts: the candidate strings of every base are
//! read byte by byte by a set of cursors, and each distinct string is counted
//! once, in the earliest phase that produces it

use vstd::prelude::*;

use crate::bases::{base_plan_valid, letter_words, BasePlan, PhasePlan};
use crate::bytes::{copy_indices, copy_words, deep, is_letter_token};
use crate::casing::{transformed, transformed_word, CaseVariant};
use crate::multiset::{distinct_words, lemma_distinct_contains, position_of};
use crate::error::RecoverError;
use crate::phase::{phase_enabled, SearchPhase};
use crate::settings::{OrderMode, RecoverySettings, SpacingMode};

verus! {

/// Which spaces a source's strings may hold
#[derive(Clone, Copy, PartialEq, Eq)]
pub enum SpacingProfile {
    /// No spaces
    Concatenated,
    /// One space between consecutive words
    Between,
    /// Any word may be preceded by one space
    Coldcard,
}

/// Strings of one base of one phase under one spacing profile
pub struct LanguageSource {
    pub phase: SearchPhase,
    pub words: Vec<Vec<u8>>,
    pub counts: Vec<usize>,
    pub spacing: SpacingProfile,
    pub require_space: bool,
    pub written_order: Option<Vec<usize>>,
}

/// A word being read, at a byte offset, possibly still before its space
#[derive(Clone, Copy, PartialEq, Eq)]
pub struct ActiveToken {
    pub word_index: usize,
    pub variant: CaseVariant,
    pub offset: usize,
    pub leading_space: bool,
}

/// Position of one reader inside a source's strings
pub struct LanguageCursor {
    pub source: usize,
    pub remaining: Vec<usize>,
    pub active: Option<ActiveToken>,
    pub has_case: bool,
    pub emitted: usize,
    pub has_space: bool,
}

pub open spec fn source_valid(s: LanguageSource, max_replacements: usize) -> bool {
    &&& phase_enabled(s.phase, max_replacements)
    &&& s.words@.len() == s.counts@.len()
    &&& forall|k: int| 0 <= k < s.words@.len() ==> is_letter_token(#[trigger] s.words@[k]@)
    &&& s.written_order matches Some(order) ==> forall|k: int|
        0 <= k < order@.len() ==> #[trigger] order@[k] < s.words@.len()
}

pub open spec fn sources_valid(sources: Seq<LanguageSource>, max_replacements: usize) -> bool {
    forall|i: int| 0 <= i < sources.len() ==> source_valid(#[trigger] sources[i], max_replacements)
}

pub open spec fn cursor_valid(c: LanguageCursor, sources: Seq<LanguageSource>) -> bool {
    &&& c.source < sources.len()
    &&& c.remaining@.len() == sources[c.source as int].words@.len()
    &&& c.active matches Some(a) ==> {
        &&& a.word_index < sources[c.source as int].words@.len()
        &&& a.offset < sources[c.source as int].words@[a.word_index as int]@.len()
    }
}

pub open spec fn state_valid(state: Seq<LanguageCursor>, sources: Seq<LanguageSource>) -> bool {
    forall|i: int| 0 <= i < state.len() ==> cursor_valid(#[trigger] state[i], sources)
}

/// Number of a case variant, in the order lower, title, upper
pub open spec fn variant_code(v: CaseVariant) -> u8 {
    match v {
        CaseVariant::Lower => 0,
        CaseVariant::Title => 1,
        CaseVariant::Upper => 2,
    }
}

/// Two cursors hold the same reading position
pub open spec fn same_cursor(a: LanguageCursor, b: LanguageCursor) -> bool {
    &&& a.source == b.source
    &&& a.remaining@ == b.remaining@
    &&& a.active == b.active
    &&& a.has_case == b.has_case
    &&& a.emitted == b.emitted
    &&& a.has_space == b.has_space
}

/// Two states hold the same cursors in the same order
pub open spec fn same_state(a: Seq<LanguageCursor>, b: Seq<LanguageCursor>) -> bool {
    a.len() == b.len() && forall|i: int| 0 <= i < a.len() ==> same_cursor(#[trigger] a[i], b[i])
}

/// Order of active tokens: none first, then by word, variant, offset, and
/// a pending space last
pub open spec fn active_lt(a: Option<ActiveToken>, b: Option<ActiveToken>) -> bool {
    match (a, b) {
        (None, Some(_)) => true,
        (Some(x), Some(y)) => x.word_index < y.word_index || (x.word_index == y.word_index && (variant_code(
            x.variant,
        ) < variant_code(y.variant) || (x.variant == y.variant && (x.offset < y.offset || (x.offset == y.offset
            && !x.leading_space && y.leading_space))))),
        _ => false,
    }
}

/// Strict order of cursors that keeps states canonical: source, remaining
/// counts, active token, then the case, count and space flags
pub open spec fn cursor_order_lt(a: LanguageCursor, b: LanguageCursor) -> bool {
    a.source < b.source || (a.source == b.source && (crate::bytes::indices_lt(a.remaining@, b.remaining@) || (
    a.remaining@ == b.remaining@ && (active_lt(a.active, b.active) || (a.active == b.active && ((!a.has_case
        && b.has_case) || (a.has_case == b.has_case && (a.emitted < b.emitted || (a.emitted == b.emitted
        && !a.has_space && b.has_space)))))))))
}

/// The source accepts the string read so far: no token is open, every word is
/// used up, a case phase saw a raised word, and a required space was read
pub open spec fn accepts(cursor: LanguageCursor, source: LanguageSource) -> bool {
    &&& cursor.active is None
    &&& forall|i: int| 0 <= i < cursor.remaining@.len() ==> cursor.remaining@[i] == 0
    &&& !crate::phase::spec_includes_case_variants(source.phase) || cursor.has_case
    &&& !source.require_space || cursor.has_space
}

/// Indices below `n` whose count is positive, in increasing order
pub open spec fn positive_indices(counts: Seq<usize>, n: nat) -> Seq<usize>
    decreases n,
{
    if n == 0 {
        Seq::empty()
    } else {
        let rest = positive_indices(counts, (n - 1) as nat);
        if counts[n - 1] > 0 {
            rest.push((n - 1) as usize)
        } else {
            rest
        }
    }
}

/// Words a cursor may start next: the next written word, or any word left
pub open spec fn word_choices_spec(cursor: LanguageCursor, source: LanguageSource) -> Seq<usize> {
    match source.written_order {
        Some(order) => if cursor.emitted < order@.len() {
            seq![order@[cursor.emitted as int]]
        } else {
            Seq::empty()
        },
        None => positive_indices(cursor.remaining@, cursor.remaining@.len()),
    }
}

/// Whether the next token is preceded by a space, in the order tried
pub open spec fn spacing_choices_spec(profile: SpacingProfile, emitted: usize) -> Seq<bool> {
    match profile {
        SpacingProfile::Concatenated => seq![false],
        SpacingProfile::Between => seq![emitted > 0],
        SpacingProfile::Coldcard => seq![false, true],
    }
}

/// Case variants of a phase
pub open spec fn variants_spec(phase: SearchPhase) -> Seq<CaseVariant> {
    if crate::phase::spec_includes_case_variants(phase) {
        seq![CaseVariant::Lower, CaseVariant::Title, CaseVariant::Upper]
    } else {
        seq![CaseVariant::Lower]
    }
}

proof fn lemma_indices_lt_at(a: Seq<usize>, b: Seq<usize>, i: int)
    requires
        0 <= i <= a.len(),
        i <= b.len(),
        forall|j: int| 0 <= j < i ==> a[j] == b[j],
    ensures
        i < a.len() && i < b.len() && a[i] != b[i] ==> crate::bytes::indices_lt(a, b) == (a[i] < b[i]),
        i == a.len() || i == b.len() ==> crate::bytes::indices_lt(a, b) == (a.len() < b.len()),
    decreases i,
{
    if i > 0 {
        assert forall|j: int| 0 <= j < i - 1 implies a.drop_first()[j] == b.drop_first()[j] by {
            assert(a[j + 1] == b[j + 1]);
        }
        lemma_indices_lt_at(a.drop_first(), b.drop_first(), i - 1);
        assert(a[0] == b[0]);
    }
}

fn copy_counts(v: &Vec<usize>) -> (r: Vec<usize>)
    ensures
        r@ == v@,
{
    vstd::slice::slice_to_vec(v.as_slice())
}

fn copy_cursor(c: &LanguageCursor) -> (r: LanguageCursor)
    ensures
        r.source == c.source,
        r.remaining@ == c.remaining@,
        r.active == c.active,
        r.has_case == c.has_case,
        r.emitted == c.emitted,
        r.has_space == c.has_space,
{
    LanguageCursor {
        source: c.source,
        remaining: copy_counts(&c.remaining),
        active: c.active,
        has_case: c.has_case,
        emitted: c.emitted,
        has_space: c.has_space,
    }
}

fn variant_number(v: CaseVariant) -> (n: u8)
    ensures
        n == variant_code(v),
{
    match v {
        CaseVariant::Lower => 0,
        CaseVariant::Title => 1,
        CaseVariant::Upper => 2,
    }
}

/// Strict lexicographic order on cursors, used to keep states canonical
fn cursor_less(a: &LanguageCursor, b: &LanguageCursor) -> (lt: bool)
    ensures
        lt == cursor_order_lt(*a, *b),
{
    if a.source != b.source {
        return a.source < b.source;
    }
    let n = if a.remaining.len() < b.remaining.len() {
        a.remaining.len()
    } else {
        b.remaining.len()
    };
    let mut i: usize = 0;
    while i < n
        invariant
            n <= a.remaining@.len(),
            n <= b.remaining@.len(),
            n == a.remaining@.len() || n == b.remaining@.len(),
            a.source == b.source,
            i <= n,
            forall|j: int| 0 <= j < i ==> a.remaining@[j] == b.remaining@[j],
        decreases n - i,
    {
        if a.remaining[i] != b.remaining[i] {
            proof {
                lemma_indices_lt_at(a.remaining@, b.remaining@, i as int);
                assert(a.remaining@[i as int] != b.remaining@[i as int]);
                assert(a.remaining@ != b.remaining@);
            }
            return a.remaining[i] < b.remaining[i];
        }
        i = i + 1;
    }
    proof {
        lemma_indices_lt_at(a.remaining@, b.remaining@, i as int);
    }
    if a.remaining.len() != b.remaining.len() {
        return a.remaining.len() < b.remaining.len();
    }
    assert(a.remaining@ =~= b.remaining@);
    match (a.active, b.active) {
        (None, Some(_)) => {
            return true;
        },
        (Some(_), None) => {
            return false;
        },
        (Some(x), Some(y)) => {
            if x.word_index != y.word_index {
                return x.word_index < y.word_index;
            }
            let (vx, vy) = (variant_number(x.variant), variant_number(y.variant));
            if vx != vy {
                return vx < vy;
            }
            assert(x.variant == y.variant) by {
                match x.variant {
                    CaseVariant::Lower => {},
                    CaseVariant::Title => {},
                    CaseVariant::Upper => {},
                }
                match y.variant {
                    CaseVariant::Lower => {},
                    CaseVariant::Title => {},
                    CaseVariant::Upper => {},
                }
            }
            if x.offset != y.offset {
                return x.offset < y.offset;
            }
            if x.leading_space != y.leading_space {
                return !x.leading_space;
            }
        },
        (None, None) => {},
    }
    if a.has_case != b.has_case {
        return !a.has_case;
    }
    if a.emitted != b.emitted {
        return a.emitted < b.emitted;
    }
    if a.has_space != b.has_space {
        return !a.has_space;
    }
    false
}

fn cursor_equal(a: &LanguageCursor, b: &LanguageCursor) -> (eq: bool)
    ensures
        eq == same_cursor(*a, *b),
{
    if a.source != b.source || a.has_case != b.has_case || a.emitted != b.emitted || a.has_space != b.has_space {
        return false;
    }
    if a.remaining.len() != b.remaining.len() {
        return false;
    }
    let mut i: usize = 0;
    while i < a.remaining.len()
        invariant
            a.remaining@.len() == b.remaining@.len(),
            i <= a.remaining@.len(),
            forall|j: int| 0 <= j < i ==> a.remaining@[j] == b.remaining@[j],
        decreases a.remaining@.len() - i,
    {
        if a.remaining[i] != b.remaining[i] {
            return false;
        }
        i = i + 1;
    }
    assert(a.remaining@ =~= b.remaining@);
    match (a.active, b.active) {
        (None, None) => true,
        (Some(x), Some(y)) => {
            let vx = variant_number(x.variant);
            let vy = variant_number(y.variant);
            assert(vx == vy <==> x.variant == y.variant) by {
                match x.variant {
                    CaseVariant::Lower => {},
                    CaseVariant::Title => {},
                    CaseVariant::Upper => {},
                }
                match y.variant {
                    CaseVariant::Lower => {},
                    CaseVariant::Title => {},
                    CaseVariant::Upper => {},
                }
            }
            x.word_index == y.word_index && vx == vy && x.offset == y.offset && x.leading_space == y.leading_space
        },
        _ => false,
    }
}

/// Cursors in strictly increasing order, so no reading position twice
pub open spec fn state_sorted(state: Seq<LanguageCursor>) -> bool {
    forall|i: int, j: int| 0 <= i < j < state.len() ==> cursor_order_lt(#[trigger] state[i], #[trigger] state[j])
}

/// Some cursor of the state holds this reading position
pub open spec fn has_cursor(state: Seq<LanguageCursor>, cursor: LanguageCursor) -> bool {
    exists|i: int| 0 <= i < state.len() && same_cursor(#[trigger] state[i], cursor)
}

proof fn lemma_active_order(a: Option<ActiveToken>, b: Option<ActiveToken>, c: Option<ActiveToken>)
    ensures
        !active_lt(a, a),
        a != b ==> active_lt(a, b) || active_lt(b, a),
        active_lt(a, b) ==> !active_lt(b, a),
        active_lt(a, b) && active_lt(b, c) ==> active_lt(a, c),
{
    if let (Some(x), Some(y)) = (a, b) {
        assert(variant_code(x.variant) == variant_code(y.variant) ==> x.variant == y.variant) by {
            match x.variant {
                CaseVariant::Lower => {},
                CaseVariant::Title => {},
                CaseVariant::Upper => {},
            }
            match y.variant {
                CaseVariant::Lower => {},
                CaseVariant::Title => {},
                CaseVariant::Upper => {},
            }
        }
    }
}

/// The cursor order is a strict total order on reading positions
proof fn lemma_cursor_order(a: LanguageCursor, b: LanguageCursor, c: LanguageCursor)
    ensures
        same_cursor(a, b) ==> cursor_order_lt(a, c) == cursor_order_lt(b, c) && cursor_order_lt(c, a)
            == cursor_order_lt(c, b),
        !same_cursor(a, b) ==> cursor_order_lt(a, b) || cursor_order_lt(b, a),
        cursor_order_lt(a, b) ==> !cursor_order_lt(b, a) && !same_cursor(a, b),
        cursor_order_lt(a, b) && cursor_order_lt(b, c) ==> cursor_order_lt(a, c),
{
    lemma_active_order(a.active, b.active, c.active);
    lemma_active_order(b.active, a.active, c.active);
    lemma_active_order(a.active, c.active, b.active);
    crate::bytes::lemma_indices_lt_total(a.remaining@, b.remaining@);
    crate::bytes::lemma_indices_lt_total(b.remaining@, c.remaining@);
    crate::bytes::lemma_indices_lt_total(a.remaining@, c.remaining@);
    crate::bytes::lemma_indices_lt_irreflexive(a.remaining@);
    if crate::bytes::indices_lt(a.remaining@, b.remaining@) && crate::bytes::indices_lt(b.remaining@, c.remaining@) {
        crate::bytes::lemma_indices_lt_transitive(a.remaining@, b.remaining@, c.remaining@);
    }
}

/// Add a cursor to a sorted state unless it is already there
fn insert_cursor(state: &mut Vec<LanguageCursor>, cursor: LanguageCursor)
    requires
        state_sorted(old(state)@),
    ensures
        state_sorted(final(state)@),
        has_cursor(final(state)@, cursor),
        forall|i: int| 0 <= i < old(state)@.len() ==> final(state)@.contains(#[trigger] old(state)@[i]),
        forall|i: int| 0 <= i < final(state)@.len() ==> (#[trigger] final(state)@[i] == cursor || old(state)@.contains(
            final(state)@[i],
        )),
{
    let mut pos: usize = 0;
    while pos < state.len() && cursor_less(&state[pos], &cursor)
        invariant
            pos <= state@.len(),
            forall|t: int| 0 <= t < pos ==> cursor_order_lt(#[trigger] state@[t], cursor),
        decreases state@.len() - pos,
    {
        pos = pos + 1;
    }
    if pos < state.len() && cursor_equal(&state[pos], &cursor) {
        proof {
            assert(same_cursor(state@[pos as int], cursor));
            assert forall|i: int| 0 <= i < state@.len() implies state@.contains(#[trigger] state@[i]) by {}
        }
        return;
    }
    let ghost before = state@;
    state.insert(pos, cursor);
    proof {
        assert(same_cursor(state@[pos as int], cursor));
        assert forall|i: int| 0 <= i < before.len() implies state@.contains(#[trigger] before[i]) by {
            if i < pos {
                assert(state@[i] == before[i]);
            } else {
                assert(state@[i + 1] == before[i]);
            }
        }
        if pos < before.len() {
            lemma_cursor_order(before[pos as int], cursor, cursor);
        }
        assert forall|i: int, j: int| 0 <= i < j < state@.len() implies cursor_order_lt(
            #[trigger] state@[i],
            #[trigger] state@[j],
        ) by {
            if j < pos {
                assert(state@[i] == before[i] && state@[j] == before[j]);
            } else if j == pos {
                assert(state@[i] == before[i]);
            } else if i == pos {
                assert(state@[j] == before[j - 1]);
                if j - 1 > pos {
                    lemma_cursor_order(cursor, before[pos as int], before[j - 1]);
                }
            } else if i < pos {
                assert(state@[i] == before[i] && state@[j] == before[j - 1]);
                lemma_cursor_order(before[i], cursor, before[pos as int]);
                if j - 1 > pos {
                    lemma_cursor_order(before[i], before[pos as int], before[j - 1]);
                }
            } else {
                assert(state@[i] == before[i - 1] && state@[j] == before[j - 1]);
            }
        }
        assert forall|i: int| 0 <= i < state@.len() implies (#[trigger] state@[i] == cursor || before.contains(
            state@[i],
        )) by {
            if i < pos {
                assert(state@[i] == before[i]);
            } else if i > pos {
                assert(state@[i] == before[i - 1]);
            }
        }
    }
}

fn source_accepts(cursor: &LanguageCursor, source: &LanguageSource) -> (accepted: bool)
    ensures
        accepted == accepts(*cursor, *source),
{
    if cursor.active.is_some() {
        return false;
    }
    let mut i: usize = 0;
    while i < cursor.remaining.len()
        invariant
            i <= cursor.remaining@.len(),
            cursor.active is None,
            forall|j: int| 0 <= j < i ==> cursor.remaining@[j] == 0,
        decreases cursor.remaining@.len() - i,
    {
        if cursor.remaining[i] != 0 {
            return false;
        }
        i = i + 1;
    }
    (!source.phase.includes_case_variants() || cursor.has_case) && (!source.require_space || cursor.has_space)
}

/// Indices of the words the cursor may start next
fn word_choices(cursor: &LanguageCursor, source: &LanguageSource) -> (choices: Vec<usize>)
    requires
        cursor.remaining@.len() == source.words@.len(),
        source.written_order matches Some(order) ==> forall|k: int|
            0 <= k < order@.len() ==> #[trigger] order@[k] < source.words@.len(),
    ensures
        forall|k: int| 0 <= k < choices@.len() ==> #[trigger] choices@[k] < source.words@.len(),
        choices@ == word_choices_spec(*cursor, *source),
{
    let mut choices: Vec<usize> = Vec::new();
    match &source.written_order {
        Some(order) => {
            if cursor.emitted < order.len() {
                choices.push(order[cursor.emitted]);
            }
        },
        None => {
            let mut i: usize = 0;
            while i < cursor.remaining.len()
                invariant
                    i <= cursor.remaining@.len(),
                    cursor.remaining@.len() == source.words@.len(),
                    forall|k: int| 0 <= k < choices@.len() ==> #[trigger] choices@[k] < source.words@.len(),
                    source.written_order is None,
                    choices@ == positive_indices(cursor.remaining@, i as nat),
                decreases cursor.remaining@.len() - i,
            {
                if cursor.remaining[i] > 0 {
                    choices.push(i);
                }
                i = i + 1;
            }
        },
    }
    choices
}

/// Whether a token may be preceded by a space, in the order tried
fn spacing_choices(profile: SpacingProfile, emitted: usize) -> (choices: Vec<bool>)
    ensures
        choices@ == spacing_choices_spec(profile, emitted),
{
    let mut choices: Vec<bool> = Vec::new();
    match profile {
        SpacingProfile::Concatenated => choices.push(false),
        SpacingProfile::Between => choices.push(emitted > 0),
        SpacingProfile::Coldcard => {
            choices.push(false);
            choices.push(true);
        },
    }
    choices
}

/// Case variants a phase may use
fn language_variants(phase: SearchPhase) -> (variants: Vec<CaseVariant>)
    ensures
        variants@ == variants_spec(phase),
{
    let mut variants: Vec<CaseVariant> = Vec::new();
    variants.push(CaseVariant::Lower);
    if phase.includes_case_variants() {
        variants.push(CaseVariant::Title);
        variants.push(CaseVariant::Upper);
    }
    variants
}

/// First byte read when word `w` starts in variant `v`: its space, or its
/// first letter
pub open spec fn first_byte(source: LanguageSource, w: usize, v: CaseVariant, leading: bool) -> int {
    if leading {
        32
    } else {
        transformed(source.words@[w as int]@, v)[0] as int
    }
}

/// A byte the cursor may read next
pub open spec fn readable(cursor: LanguageCursor, source: LanguageSource, b: int) -> bool {
    match cursor.active {
        Some(a) => if a.leading_space {
            b == 32
        } else {
            b == token_bytes(source, a)[a.offset as int] as int
        },
        None => exists|c: int, v: int, k: int|
            0 <= c < word_choices_spec(cursor, source).len() && 0 <= v < variants_spec(source.phase).len() && 0 <= k
                < spacing_choices_spec(source.spacing, cursor.emitted).len() && b == #[trigger] first_byte(
                source,
                word_choices_spec(cursor, source)[c],
                variants_spec(source.phase)[v],
                spacing_choices_spec(source.spacing, cursor.emitted)[k],
            ),
    }
}

/// Bytes a cursor may read next, as a table of 256 flags
fn cursor_symbols(cursor: &LanguageCursor, sources: &Vec<LanguageSource>, symbols: &mut Vec<bool>)
    requires
        old(symbols)@.len() == 256,
        shapes_valid(sources@),
        cursor_valid(*cursor, sources@),
    ensures
        final(symbols)@.len() == 256,
        forall|b: int|
            0 <= b < 256 ==> #[trigger] final(symbols)@[b] == (old(symbols)@[b] || readable(
                *cursor,
                sources@[cursor.source as int],
                b,
            )),
{
    let source = &sources[cursor.source];
    let ghost src = sources@[cursor.source as int];
    let ghost start = symbols@;
    proof {
        assert(source_valid_shape(*source));
    }
    match cursor.active {
        Some(active) => {
            if active.leading_space {
                symbols.set(32, true);
            } else {
                let bytes = transformed_word(&source.words[active.word_index], active.variant);
                symbols.set(bytes[active.offset] as usize, true);
            }
        },
        None => {
            let choices = word_choices(cursor, source);
            let variants = language_variants(source.phase);
            let spaces = spacing_choices(source.spacing, cursor.emitted);
            let mut c: usize = 0;
            while c < choices.len()
                invariant
                    symbols@.len() == 256,
                    source_valid_shape(*source),
                    src == *source,
                    cursor.active is None,
                    forall|k: int| 0 <= k < choices@.len() ==> #[trigger] choices@[k] < source.words@.len(),
                    c <= choices@.len(),
                    choices@ == word_choices_spec(*cursor, *source),
                    variants@ == variants_spec(source.phase),
                    spaces@ == spacing_choices_spec(source.spacing, cursor.emitted),
                    forall|b: int|
                        0 <= b < 256 ==> #[trigger] symbols@[b] == (start[b] || exists|c2: int, v2: int, k2: int|
                            0 <= c2 < c && 0 <= v2 < variants@.len() && 0 <= k2 < spaces@.len() && b
                                == #[trigger] first_byte(src, choices@[c2], variants@[v2], spaces@[k2])),
                decreases choices@.len() - c,
            {
                let mut v: usize = 0;
                while v < variants.len()
                    invariant
                        symbols@.len() == 256,
                        source_valid_shape(*source),
                        src == *source,
                        c < choices@.len(),
                        v <= variants@.len(),
                        forall|k: int| 0 <= k < choices@.len() ==> #[trigger] choices@[k] < source.words@.len(),
                        forall|b: int|
                            0 <= b < 256 ==> #[trigger] symbols@[b] == (start[b] || exists|c2: int, v2: int, k2: int|
                                (0 <= c2 < c && 0 <= v2 < variants@.len() || c2 == c && 0 <= v2 < v) && 0 <= k2
                                    < spaces@.len() && b == #[trigger] first_byte(
                                    src,
                                    choices@[c2],
                                    variants@[v2],
                                    spaces@[k2],
                                )),
                    decreases variants@.len() - v,
                {
                    let bytes = transformed_word(&source.words[choices[c]], variants[v]);
                    let mut sp: usize = 0;
                    while sp < spaces.len()
                        invariant
                            symbols@.len() == 256,
                            bytes@.len() > 0,
                            bytes@ == transformed(source.words@[choices@[c as int] as int]@, variants@[v as int]),
                            src == *source,
                            c < choices@.len(),
                            v < variants@.len(),
                            sp <= spaces@.len(),
                            forall|b: int|
                                0 <= b < 256 ==> #[trigger] symbols@[b] == (start[b] || exists|c2: int, v2: int, k2: int|
                                    ((0 <= c2 < c && 0 <= v2 < variants@.len() || c2 == c && 0 <= v2 < v) && 0 <= k2
                                        < spaces@.len() || c2 == c && v2 == v && 0 <= k2 < sp) && b
                                        == #[trigger] first_byte(src, choices@[c2], variants@[v2], spaces@[k2])),
                        decreases spaces@.len() - sp,
                    {
                        let ghost before = symbols@;
                        let ghost hit = first_byte(src, choices@[c as int], variants@[v as int], spaces@[sp as int]);
                        if spaces[sp] {
                            symbols.set(32, true);
                        } else {
                            symbols.set(bytes[0] as usize, true);
                        }
                        proof {
                            assert forall|b: int| 0 <= b < 256 implies #[trigger] symbols@[b] == (start[b] || exists|
                                c2: int,
                                v2: int,
                                k2: int,
                            |
                                ((0 <= c2 < c && 0 <= v2 < variants@.len() || c2 == c && 0 <= v2 < v) && 0 <= k2
                                    < spaces@.len() || c2 == c && v2 == v && 0 <= k2 < sp + 1) && b
                                    == #[trigger] first_byte(src, choices@[c2], variants@[v2], spaces@[k2])) by {
                                if b == hit {
                                    assert(b == first_byte(src, choices@[c as int], variants@[v as int], spaces@[sp as int]));
                                } else {
                                    assert(symbols@[b] == before[b]);
                                }
                            }
                        }
                        sp = sp + 1;
                    }
                    v = v + 1;
                }
                c = c + 1;
            }
        },
    }
}

/// Shape facts about a source used while reading it
pub open spec fn source_valid_shape(s: LanguageSource) -> bool {
    &&& s.words@.len() == s.counts@.len()
    &&& forall|k: int| 0 <= k < s.words@.len() ==> is_letter_token(#[trigger] s.words@[k]@)
    &&& s.written_order matches Some(order) ==> forall|k: int|
        0 <= k < order@.len() ==> #[trigger] order@[k] < s.words@.len()
}

proof fn lemma_transformed_len(word: Seq<u8>, v: CaseVariant)
    requires
        word.len() > 0,
    ensures
        transformed(word, v).len() == word.len(),
{
}

/// Bytes of an active token
pub open spec fn token_bytes(source: LanguageSource, a: ActiveToken) -> Seq<u8> {
    transformed(source.words@[a.word_index as int]@, a.variant)
}

/// Reading the byte moves on within the open token: past its space, or to
/// its next byte, closing it after its last
pub open spec fn continues(cursor: LanguageCursor, source: LanguageSource, symbol: u8, next: LanguageCursor) -> bool {
    match cursor.active {
        Some(a) => {
            &&& next.source == cursor.source
            &&& next.remaining@ == cursor.remaining@
            &&& next.has_case == cursor.has_case
            &&& next.emitted == cursor.emitted
            &&& if a.leading_space {
                &&& symbol == 32
                &&& next.has_space
                &&& next.active == Some(
                    ActiveToken { word_index: a.word_index, variant: a.variant, offset: 0, leading_space: false },
                )
            } else {
                &&& token_bytes(source, a)[a.offset as int] == symbol
                &&& next.has_space == cursor.has_space
                &&& next.active == if a.offset + 1 == token_bytes(source, a).len() {
                    None
                } else {
                    Some(
                        ActiveToken {
                            word_index: a.word_index,
                            variant: a.variant,
                            offset: (a.offset + 1) as usize,
                            leading_space: false,
                        },
                    )
                }
            }
        },
        None => false,
    }
}

/// Reading the byte starts word `w` in variant `v`, with a space first or not
pub open spec fn starts_word(
    cursor: LanguageCursor,
    source: LanguageSource,
    symbol: u8,
    w: usize,
    v: CaseVariant,
    leading: bool,
    next: LanguageCursor,
) -> bool {
    let bytes = transformed(source.words@[w as int]@, v);
    &&& if leading {
        symbol == 32
    } else {
        bytes[0] == symbol
    }
    &&& cursor.remaining@[w as int] > 0
    &&& cursor.emitted < usize::MAX
    &&& next.source == cursor.source
    &&& next.remaining@ == cursor.remaining@.update(w as int, (cursor.remaining@[w as int] - 1) as usize)
    &&& next.has_case == (cursor.has_case || v != CaseVariant::Lower)
    &&& next.emitted == cursor.emitted + 1
    &&& next.has_space == cursor.has_space
    &&& next.active == if leading || bytes.len() > 1 {
        Some(
            ActiveToken {
                word_index: w,
                variant: v,
                offset: if leading {
                    0
                } else {
                    1
                },
                leading_space: leading,
            },
        )
    } else {
        None
    }
}

/// A cursor reached from `cursor` by reading `symbol`
pub open spec fn successor(cursor: LanguageCursor, source: LanguageSource, symbol: u8, next: LanguageCursor) -> bool {
    ||| continues(cursor, source, symbol, next)
    ||| cursor.active is None && exists|c: int, v: int, k: int|
        0 <= c < word_choices_spec(cursor, source).len() && 0 <= v < variants_spec(source.phase).len() && 0 <= k
            < spacing_choices_spec(source.spacing, cursor.emitted).len() && #[trigger] starts_word(
            cursor,
            source,
            symbol,
            word_choices_spec(cursor, source)[c],
            variants_spec(source.phase)[v],
            spacing_choices_spec(source.spacing, cursor.emitted)[k],
            next,
        )
}

proof fn lemma_has_cursor_kept(before: Seq<LanguageCursor>, after: Seq<LanguageCursor>, c: LanguageCursor)
    requires
        has_cursor(before, c),
        forall|i: int| 0 <= i < before.len() ==> after.contains(#[trigger] before[i]),
    ensures
        has_cursor(after, c),
{
    let i = choose|i: int| 0 <= i < before.len() && same_cursor(#[trigger] before[i], c);
    assert(after.contains(before[i]));
    let j = choose|j: int| 0 <= j < after.len() && after[j] == before[i];
    assert(same_cursor(after[j], c));
}

/// Cursors reached from one cursor by reading one byte
fn advance_cursor(cursor: &LanguageCursor, sources: &Vec<LanguageSource>, symbol: u8, next: &mut Vec<LanguageCursor>)
    requires
        shapes_valid(sources@),
        cursor_valid(*cursor, sources@),
        state_valid(old(next)@, sources@),
        state_sorted(old(next)@),
    ensures
        state_valid(final(next)@, sources@),
        state_sorted(final(next)@),
        forall|i: int| 0 <= i < old(next)@.len() ==> final(next)@.contains(#[trigger] old(next)@[i]),
        forall|i: int|
            0 <= i < final(next)@.len() ==> old(next)@.contains(#[trigger] final(next)@[i]) || successor(
                *cursor,
                sources@[cursor.source as int],
                symbol,
                final(next)@[i],
            ),
        forall|n: LanguageCursor| #[trigger]
            successor(*cursor, sources@[cursor.source as int], symbol, n) ==> has_cursor(final(next)@, n),
{
    let source = &sources[cursor.source];
    let ghost src = sources@[cursor.source as int];
    let ghost start = next@;
    proof {
        assert(source_valid_shape(*source));
        lemma_contains_self(next@);
    }
    match cursor.active {
        Some(active) => {
            if active.leading_space {
                if symbol != 32u8 {
                    return;
                }
                let mut moved = copy_cursor(cursor);
                moved.has_space = true;
                moved.active = Some(ActiveToken { leading_space: false, offset: 0, ..active });
                proof {
                    assert(is_letter_token(source.words@[active.word_index as int]@));
                }
                insert_cursor(next, moved);
                proof {
                    assert(continues(*cursor, src, symbol, moved));
                    assert forall|n: LanguageCursor| #[trigger]
                        successor(*cursor, src, symbol, n) implies has_cursor(next@, n) by {
                        lemma_has_cursor_same(next@, moved, n);
                    }
                }
                return;
            }
            let bytes = transformed_word(&source.words[active.word_index], active.variant);
            proof {
                lemma_transformed_len(source.words@[active.word_index as int]@, active.variant);
            }
            if bytes[active.offset] != symbol {
                return;
            }
            let mut moved = copy_cursor(cursor);
            assert(active.offset < bytes.len());
            if active.offset + 1 == bytes.len() {
                moved.active = None;
            } else {
                moved.active = Some(ActiveToken { offset: active.offset + 1, ..active });
            }
            insert_cursor(next, moved);
            proof {
                assert(continues(*cursor, src, symbol, moved));
                assert forall|n: LanguageCursor| #[trigger]
                    successor(*cursor, src, symbol, n) implies has_cursor(next@, n) by {
                    lemma_has_cursor_same(next@, moved, n);
                }
            }
        },
        None => {
            let choices = word_choices(cursor, source);
            let variants = language_variants(source.phase);
            let spaces = spacing_choices(source.spacing, cursor.emitted);
            let mut c: usize = 0;
            while c < choices.len()
                invariant
                    source_valid_shape(*source),
                    cursor.active is None,
                    cursor.remaining@.len() == source.words@.len(),
                    forall|k: int| 0 <= k < choices@.len() ==> #[trigger] choices@[k] < source.words@.len(),
                    state_valid(next@, sources@),
                    state_sorted(next@),
                    source == sources@[cursor.source as int],
                    src == *source,
                    cursor.source < sources@.len(),
                    c <= choices@.len(),
                    choices@ == word_choices_spec(*cursor, *source),
                    variants@ == variants_spec(source.phase),
                    spaces@ == spacing_choices_spec(source.spacing, cursor.emitted),
                    forall|i: int| 0 <= i < start.len() ==> next@.contains(#[trigger] start[i]),
                    forall|i: int|
                        0 <= i < next@.len() ==> start.contains(#[trigger] next@[i]) || successor(
                            *cursor,
                            src,
                            symbol,
                            next@[i],
                        ),
                    forall|c2: int, v2: int, k2: int, n: LanguageCursor|
                        0 <= c2 < c && 0 <= v2 < variants@.len() && 0 <= k2 < spaces@.len() && #[trigger] starts_word(
                            *cursor,
                            src,
                            symbol,
                            choices@[c2],
                            variants@[v2],
                            spaces@[k2],
                            n,
                        ) ==> has_cursor(next@, n),
                decreases choices@.len() - c,
            {
                let word_index = choices[c];
                let mut v: usize = 0;
                while v < variants.len()
                    invariant
                        source_valid_shape(*source),
                        cursor.active is None,
                        cursor.remaining@.len() == source.words@.len(),
                        word_index < source.words@.len(),
                        state_valid(next@, sources@),
                        state_sorted(next@),
                        source == sources@[cursor.source as int],
                        src == *source,
                        cursor.source < sources@.len(),
                        c < choices@.len(),
                        word_index == choices@[c as int],
                        v <= variants@.len(),
                        choices@ == word_choices_spec(*cursor, *source),
                        variants@ == variants_spec(source.phase),
                        spaces@ == spacing_choices_spec(source.spacing, cursor.emitted),
                        forall|i: int| 0 <= i < start.len() ==> next@.contains(#[trigger] start[i]),
                        forall|i: int|
                            0 <= i < next@.len() ==> start.contains(#[trigger] next@[i]) || successor(
                                *cursor,
                                src,
                                symbol,
                                next@[i],
                            ),
                        forall|c2: int, v2: int, k2: int, n: LanguageCursor|
                            (0 <= c2 < c && 0 <= v2 < variants@.len() && 0 <= k2 < spaces@.len() || c2 == c && 0 <= v2 < v
                                && 0 <= k2 < spaces@.len()) && #[trigger] starts_word(
                                *cursor,
                                src,
                                symbol,
                                choices@[c2],
                                variants@[v2],
                                spaces@[k2],
                                n,
                            ) ==> has_cursor(next@, n),
                    decreases variants@.len() - v,
                {
                    let variant = variants[v];
                    let bytes = transformed_word(&source.words[word_index], variant);
                    proof {
                        lemma_transformed_len(source.words@[word_index as int]@, variant);
                    }
                    let mut sp: usize = 0;
                    while sp < spaces.len()
                        invariant
                            source_valid_shape(*source),
                            cursor.active is None,
                            cursor.remaining@.len() == source.words@.len(),
                            word_index < source.words@.len(),
                            bytes@.len() == source.words@[word_index as int]@.len(),
                            bytes@ == transformed(source.words@[word_index as int]@, variant),
                            bytes@.len() > 0,
                            state_valid(next@, sources@),
                            state_sorted(next@),
                            source == sources@[cursor.source as int],
                            src == *source,
                            cursor.source < sources@.len(),
                            c < choices@.len(),
                            word_index == choices@[c as int],
                            v < variants@.len(),
                            variant == variants@[v as int],
                            sp <= spaces@.len(),
                            choices@ == word_choices_spec(*cursor, *source),
                            variants@ == variants_spec(source.phase),
                            spaces@ == spacing_choices_spec(source.spacing, cursor.emitted),
                            forall|i: int| 0 <= i < start.len() ==> next@.contains(#[trigger] start[i]),
                            forall|i: int|
                                0 <= i < next@.len() ==> start.contains(#[trigger] next@[i]) || successor(
                                    *cursor,
                                    src,
                                    symbol,
                                    next@[i],
                                ),
                            forall|c2: int, v2: int, k2: int, n: LanguageCursor|
                                (0 <= c2 < c && 0 <= v2 < variants@.len() && 0 <= k2 < spaces@.len() || c2 == c && 0 <= v2
                                    < v && 0 <= k2 < spaces@.len() || c2 == c && v2 == v && 0 <= k2 < sp)
                                    && #[trigger] starts_word(
                                    *cursor,
                                    src,
                                    symbol,
                                    choices@[c2],
                                    variants@[v2],
                                    spaces@[k2],
                                    n,
                                ) ==> has_cursor(next@, n),
                        decreases spaces@.len() - sp,
                    {
                        let leading_space = spaces[sp];
                        let fits = if leading_space {
                            symbol == 32u8
                        } else {
                            bytes[0] == symbol
                        };
                        if fits && cursor.remaining[word_index] > 0 && cursor.emitted < usize::MAX {
                            let mut moved = copy_cursor(cursor);
                            let left = moved.remaining[word_index] - 1;
                            moved.remaining.set(word_index, left);
                            moved.has_case = moved.has_case || variant != CaseVariant::Lower;
                            moved.emitted = moved.emitted + 1;
                            if leading_space || bytes.len() > 1 {
                                moved.active = Some(
                                    ActiveToken {
                                        word_index,
                                        variant,
                                        offset: if leading_space {
                                            0
                                        } else {
                                            1
                                        },
                                        leading_space,
                                    },
                                );
                            }
                            assert(cursor_valid(moved, sources@));
                            let ghost before = next@;
                            insert_cursor(next, moved);
                            proof {
                                assert(starts_word(
                                    *cursor,
                                    src,
                                    symbol,
                                    choices@[c as int],
                                    variants@[v as int],
                                    spaces@[sp as int],
                                    moved,
                                ));
                                assert(successor(*cursor, src, symbol, moved));
                                assert forall|i: int| 0 <= i < start.len() implies next@.contains(#[trigger] start[i]) by {
                                    assert(before.contains(start[i]));
                                    let j = choose|j: int| 0 <= j < before.len() && before[j] == start[i];
                                    assert(next@.contains(before[j]));
                                }
                                assert forall|i: int| 0 <= i < next@.len() implies start.contains(#[trigger] next@[i])
                                    || successor(*cursor, src, symbol, next@[i]) by {
                                    if next@[i] != moved {
                                        let j = choose|j: int| 0 <= j < before.len() && before[j] == next@[i];
                                        assert(start.contains(before[j]) || successor(*cursor, src, symbol, before[j]));
                                    }
                                }
                                assert forall|c2: int, v2: int, k2: int, n: LanguageCursor|
                                    (0 <= c2 < c && 0 <= v2 < variants@.len() && 0 <= k2 < spaces@.len() || c2 == c
                                        && 0 <= v2 < v && 0 <= k2 < spaces@.len() || c2 == c && v2 == v && 0 <= k2
                                        < sp + 1) && #[trigger] starts_word(
                                        *cursor,
                                        src,
                                        symbol,
                                        choices@[c2],
                                        variants@[v2],
                                        spaces@[k2],
                                        n,
                                    ) implies has_cursor(next@, n) by {
                                    if c2 == c && v2 == v && k2 == sp {
                                        lemma_has_cursor_same(next@, moved, n);
                                    } else {
                                        lemma_has_cursor_kept(before, next@, n);
                                    }
                                }
                            }
                        }
                        sp = sp + 1;
                    }
                    v = v + 1;
                }
                c = c + 1;
            }
            proof {
                assert forall|n: LanguageCursor| #[trigger]
                    successor(*cursor, src, symbol, n) implies has_cursor(next@, n) by {
                    let (c2, v2, k2) = choose|c2: int, v2: int, k2: int|
                        0 <= c2 < word_choices_spec(*cursor, src).len() && 0 <= v2 < variants_spec(src.phase).len()
                            && 0 <= k2 < spacing_choices_spec(src.spacing, cursor.emitted).len() && #[trigger] starts_word(
                            *cursor,
                            src,
                            symbol,
                            word_choices_spec(*cursor, src)[c2],
                            variants_spec(src.phase)[v2],
                            spacing_choices_spec(src.spacing, cursor.emitted)[k2],
                            n,
                        );
                    assert(starts_word(*cursor, src, symbol, choices@[c2], variants@[v2], spaces@[k2], n));
                }
            }
        },
    }
}

proof fn lemma_contains_self(s: Seq<LanguageCursor>)
    ensures
        forall|i: int| 0 <= i < s.len() ==> s.contains(#[trigger] s[i]),
{
}

proof fn lemma_has_cursor_same(state: Seq<LanguageCursor>, a: LanguageCursor, b: LanguageCursor)
    requires
        has_cursor(state, a),
        same_cursor(a, b),
    ensures
        has_cursor(state, b),
{
    let i = choose|i: int| 0 <= i < state.len() && same_cursor(#[trigger] state[i], a);
    assert(same_cursor(state[i], b));
}

/// Shape facts of every source
pub open spec fn shapes_valid(sources: Seq<LanguageSource>) -> bool {
    forall|i: int| 0 <= i < sources.len() ==> source_valid_shape(#[trigger] sources[i])
}


/// Number of hash buckets of the count memo
pub const MEMO_BUCKETS: usize = 4096;

/// The string read so far is counted in its earliest phase: every accepting
/// cursor whose source's phase comes first among the accepting ones has a
/// positive count at that phase
pub open spec fn tally_ok(
    state: Seq<LanguageCursor>,
    counts: Seq<u128>,
    sources: Seq<LanguageSource>,
    max_replacements: usize,
) -> bool {
    forall|i: int|
        0 <= i < state.len() && accepts(#[trigger] state[i], sources[state[i].source as int]) && (forall|j: int|
            0 <= j < state.len() && accepts(#[trigger] state[j], sources[state[j].source as int]) ==> cursor_phase_index(
                state[i],
                sources,
                max_replacements,
            ) <= cursor_phase_index(state[j], sources, max_replacements)) ==> 0 <= cursor_phase_index(
            state[i],
            sources,
            max_replacements,
        ) < counts.len() && counts[cursor_phase_index(state[i], sources, max_replacements)] >= 1
}

/// Counts that only grow keep every string counted
proof fn lemma_tally_grows(
    state: Seq<LanguageCursor>,
    a: Seq<u128>,
    b: Seq<u128>,
    sources: Seq<LanguageSource>,
    max_replacements: usize,
)
    requires
        tally_ok(state, a, sources, max_replacements),
        a.len() == b.len(),
        forall|k: int| 0 <= k < a.len() ==> a[k] <= #[trigger] b[k],
    ensures
        tally_ok(state, b, sources, max_replacements),
{
}

/// States with the same cursors are counted alike
proof fn lemma_tally_same_state(
    a: Seq<LanguageCursor>,
    b: Seq<LanguageCursor>,
    counts: Seq<u128>,
    sources: Seq<LanguageSource>,
    max_replacements: usize,
)
    requires
        same_state(a, b),
        tally_ok(a, counts, sources, max_replacements),
    ensures
        tally_ok(b, counts, sources, max_replacements),
{
    assert forall|i: int| 0 <= i < b.len() implies #[trigger] accepts(b[i], sources[b[i].source as int]) == accepts(
        a[i],
        sources[a[i].source as int],
    ) && cursor_phase_index(b[i], sources, max_replacements) == cursor_phase_index(a[i], sources, max_replacements) by {
        assert(same_cursor(a[i], b[i]));
    }
}


/// Counts already computed for states, found through a hash of the state
pub struct CountMemo {
    buckets: Vec<Vec<usize>>,
    states: Vec<Vec<LanguageCursor>>,
    counts: Vec<Vec<u128>>,
}

impl CountMemo {
    pub closed spec fn valid(&self, width: nat) -> bool {
        &&& self.buckets@.len() == MEMO_BUCKETS
        &&& self.states@.len() == self.counts@.len()
        &&& forall|b: int, k: int|
            0 <= b < self.buckets@.len() && 0 <= k < self.buckets@[b]@.len() ==> #[trigger] self.buckets@[b]@[k]
                < self.states@.len()
        &&& forall|i: int| 0 <= i < self.counts@.len() ==> (#[trigger] self.counts@[i])@.len() == width
    }

    /// Every remembered tally counts its state's string in its earliest phase
    pub closed spec fn sound(&self, sources: Seq<LanguageSource>, max_replacements: usize) -> bool {
        forall|i: int|
            0 <= i < self.states@.len() ==> tally_ok(
                (#[trigger] self.states@[i])@,
                self.counts@[i]@,
                sources,
                max_replacements,
            )
    }

    pub fn new(width: usize) -> (memo: Self)
        ensures
            memo.valid(width as nat),
            forall|sources: Seq<LanguageSource>, max_replacements: usize| #[trigger] memo.sound(sources, max_replacements),
    {
        let mut buckets: Vec<Vec<usize>> = Vec::new();
        let mut b: usize = 0;
        while b < MEMO_BUCKETS
            invariant
                b <= MEMO_BUCKETS,
                buckets@.len() == b,
                forall|x: int| 0 <= x < b ==> (#[trigger] buckets@[x])@.len() == 0,
            decreases MEMO_BUCKETS - b,
        {
            buckets.push(Vec::new());
            b = b + 1;
        }
        CountMemo { buckets, states: Vec::new(), counts: Vec::new() }
    }

    fn find(&self, state: &Vec<LanguageCursor>, bucket: usize) -> (found: Option<usize>)
        requires
            bucket < MEMO_BUCKETS,
            self.buckets@.len() == MEMO_BUCKETS,
            forall|b: int, k: int|
                0 <= b < self.buckets@.len() && 0 <= k < self.buckets@[b]@.len() ==> #[trigger] self.buckets@[b]@[k]
                    < self.states@.len(),
        ensures
            found matches Some(i) ==> i < self.states@.len() && same_state(self.states@[i as int]@, state@)
                && self.buckets@[bucket as int]@.contains(i),
            found is None ==> forall|k: int|
                0 <= k < self.buckets@[bucket as int]@.len() ==> !same_state(
                    self.states@[#[trigger] self.buckets@[bucket as int]@[k] as int]@,
                    state@,
                ),
    {
        let entries = &self.buckets[bucket];
        let mut k: usize = 0;
        while k < entries.len()
            invariant
                k <= entries@.len(),
                bucket < self.buckets@.len(),
                entries == self.buckets@[bucket as int],
                forall|b: int, j: int|
                    0 <= b < self.buckets@.len() && 0 <= j < self.buckets@[b]@.len() ==> #[trigger] self.buckets@[b]@[j]
                        < self.states@.len(),
                forall|j: int| 0 <= j < k ==> !same_state(self.states@[#[trigger] entries@[j] as int]@, state@),
            decreases entries@.len() - k,
        {
            let index = entries[k];
            if states_equal(&self.states[index], state) {
                proof {
                    assert(entries@[k as int] == index);
                }
                return Some(index);
            }
            k = k + 1;
        }
        None
    }

    fn insert(&mut self, state: Vec<LanguageCursor>, counts: Vec<u128>, bucket: usize)
        requires
            bucket < MEMO_BUCKETS,
            old(self).valid(counts@.len()),
        ensures
            final(self).valid(counts@.len()),
            final(self).states@ == old(self).states@.push(state),
            final(self).counts@ == old(self).counts@.push(counts),
            final(self).buckets@.len() == old(self).buckets@.len(),
            final(self).buckets@[bucket as int]@ == old(self).buckets@[bucket as int]@.push(old(self).states@.len() as usize),
            forall|b: int|
                0 <= b < old(self).buckets@.len() && b != bucket ==> #[trigger] final(self).buckets@[b] == old(
                    self,
                ).buckets@[b],
    {
        let index = self.states.len();
        self.states.push(state);
        self.counts.push(counts);
        let mut entries = copy_indices(&self.buckets[bucket]);
        entries.push(index);
        let ghost before = self.buckets@;
        self.buckets.set(bucket, entries);
        proof {
            assert forall|b: int, k: int|
                0 <= b < self.buckets@.len() && 0 <= k < self.buckets@[b]@.len() implies #[trigger] self.buckets@[b]@[k]
                    < self.states@.len() by {
                if b != bucket {
                    assert(self.buckets@[b] == before[b]);
                } else if k < before[b]@.len() {
                    assert(self.buckets@[b]@[k] == before[b]@[k]);
                }
            }
        }
    }
}

fn states_equal(a: &Vec<LanguageCursor>, b: &Vec<LanguageCursor>) -> (eq: bool)
    ensures
        eq == same_state(a@, b@),
{
    if a.len() != b.len() {
        return false;
    }
    let mut i: usize = 0;
    while i < a.len()
        invariant
            a@.len() == b@.len(),
            i <= a@.len(),
            forall|j: int| 0 <= j < i ==> same_cursor(#[trigger] a@[j], b@[j]),
        decreases a@.len() - i,
    {
        if !cursor_equal(&a[i], &b[i]) {
            return false;
        }
        i = i + 1;
    }
    true
}

/// One step of the FNV-1a hash: xor in a value, then multiply by the prime
pub open spec fn mix_spec(hash: u64, value: u64) -> u64 {
    vstd::wrapping::u64_specs::wrapping_mul(hash ^ value, 1099511628211)
}

pub open spec fn flag_value(flag: bool) -> u64 {
    if flag {
        1
    } else {
        0
    }
}

/// Hash after the remaining counts of a cursor
pub open spec fn remaining_hash(hash: u64, remaining: Seq<usize>) -> u64
    decreases remaining.len(),
{
    if remaining.len() == 0 {
        hash
    } else {
        mix_spec(remaining_hash(hash, remaining.drop_last()), remaining.last() as u64)
    }
}

/// Hash after the active token of a cursor
pub open spec fn active_hash(hash: u64, active: Option<ActiveToken>) -> u64 {
    match active {
        Some(a) => mix_spec(
            mix_spec(
                mix_spec(mix_spec(mix_spec(hash, 1), a.word_index as u64), variant_code(a.variant) as u64),
                a.offset as u64,
            ),
            flag_value(a.leading_space),
        ),
        None => mix_spec(hash, 0),
    }
}

/// Hash after one cursor
pub open spec fn cursor_hash(hash: u64, c: LanguageCursor) -> u64 {
    mix_spec(
        mix_spec(
            mix_spec(
                active_hash(remaining_hash(mix_spec(hash, c.source as u64), c.remaining@), c.active),
                flag_value(c.has_case),
            ),
            c.emitted as u64,
        ),
        flag_value(c.has_space),
    )
}

/// FNV-1a hash of a state, cursor by cursor
pub open spec fn state_hash(state: Seq<LanguageCursor>) -> u64
    decreases state.len(),
{
    if state.len() == 0 {
        14695981039346656037
    } else {
        cursor_hash(state_hash(state.drop_last()), state.last())
    }
}

fn mix(hash: u64, value: u64) -> (mixed: u64)
    ensures
        mixed == mix_spec(hash, value),
{
    (hash ^ value).wrapping_mul(1099511628211)
}

fn state_bucket(state: &Vec<LanguageCursor>) -> (bucket: usize)
    ensures
        bucket < MEMO_BUCKETS,
        bucket == state_hash(state@) % (MEMO_BUCKETS as u64),
{
    let mut hash: u64 = 14695981039346656037;
    let mut i: usize = 0;
    while i < state.len()
        invariant
            i <= state@.len(),
            hash == state_hash(state@.take(i as int)),
        decreases state@.len() - i,
    {
        let c = &state[i];
        proof {
            assert(state@.take(i + 1).drop_last() =~= state@.take(i as int));
        }
        let ghost start = hash;
        hash = mix(hash, c.source as u64);
        let ghost first = hash;
        let mut r: usize = 0;
        while r < c.remaining.len()
            invariant
                r <= c.remaining@.len(),
                hash == remaining_hash(first, c.remaining@.take(r as int)),
            decreases c.remaining@.len() - r,
        {
            proof {
                assert(c.remaining@.take(r + 1).drop_last() =~= c.remaining@.take(r as int));
            }
            hash = mix(hash, c.remaining[r] as u64);
            r = r + 1;
        }
        proof {
            assert(c.remaining@.take(c.remaining@.len() as int) =~= c.remaining@);
        }
        match c.active {
            Some(a) => {
                hash = mix(hash, 1);
                hash = mix(hash, a.word_index as u64);
                hash = mix(hash, variant_number(a.variant) as u64);
                hash = mix(hash, a.offset as u64);
                hash = mix(hash, if a.leading_space { 1 } else { 0 });
            },
            None => {
                hash = mix(hash, 0);
            },
        }
        hash = mix(hash, if c.has_case { 1 } else { 0 });
        hash = mix(hash, c.emitted as u64);
        hash = mix(hash, if c.has_space { 1 } else { 0 });
        proof {
            assert(hash == cursor_hash(start, state@[i as int]));
        }
        i = i + 1;
    }
    proof {
        assert(state@.take(state@.len() as int) =~= state@);
    }
    (hash % (MEMO_BUCKETS as u64)) as usize
}

fn copy_state(state: &Vec<LanguageCursor>) -> (r: Vec<LanguageCursor>)
    ensures
        same_state(r@, state@),
{
    let mut r: Vec<LanguageCursor> = Vec::new();
    let mut i: usize = 0;
    while i < state.len()
        invariant
            i <= state@.len(),
            r@.len() == i,
            forall|j: int| 0 <= j < i ==> same_cursor(#[trigger] r@[j], state@[j]),
        decreases state@.len() - i,
    {
        r.push(copy_cursor(&state[i]));
        i = i + 1;
    }
    r
}

fn copy_tally(v: &Vec<u128>) -> (r: Vec<u128>)
    ensures
        r@ == v@,
{
    vstd::slice::slice_to_vec(v.as_slice())
}

/// Phase index of a cursor's source
pub open spec fn cursor_phase_index(
    cursor: LanguageCursor,
    sources: Seq<LanguageSource>,
    max_replacements: usize,
) -> int {
    crate::phase::spec_phase_index(sources[cursor.source as int].phase, max_replacements) as int
}

/// The earliest phase that accepts the string read so far: the least phase
/// index among the sources of the state's accepting cursors, if any accepts
fn earliest_accepting_phase(state: &Vec<LanguageCursor>, sources: &Vec<LanguageSource>, max_replacements: usize) -> (best:
    Option<usize>)
    requires
        max_replacements <= 100,
        sources_valid(sources@, max_replacements),
        state_valid(state@, sources@),
    ensures
        best is None <==> forall|i: int|
            0 <= i < state@.len() ==> !accepts(#[trigger] state@[i], sources@[state@[i].source as int]),
        best matches Some(b) ==> b < 2 + 2 * max_replacements && (exists|i: int|
            0 <= i < state@.len() && accepts(#[trigger] state@[i], sources@[state@[i].source as int]) && b
                == cursor_phase_index(state@[i], sources@, max_replacements)) && forall|i: int|
            0 <= i < state@.len() && accepts(#[trigger] state@[i], sources@[state@[i].source as int]) ==> b
                <= cursor_phase_index(state@[i], sources@, max_replacements),
{
    let width: usize = 2 + 2 * max_replacements;
    let mut best: Option<usize> = None;
    let mut i: usize = 0;
    while i < state.len()
        invariant
            i <= state@.len(),
            max_replacements <= 100,
            width == 2 + 2 * max_replacements,
            sources_valid(sources@, max_replacements),
            state_valid(state@, sources@),
            best matches Some(b) ==> b < width,
            best is None <==> forall|j: int|
                0 <= j < i ==> !accepts(#[trigger] state@[j], sources@[state@[j].source as int]),
            best matches Some(b) ==> (exists|j: int|
                0 <= j < i && accepts(#[trigger] state@[j], sources@[state@[j].source as int]) && b
                    == cursor_phase_index(state@[j], sources@, max_replacements)) && forall|j: int|
                0 <= j < i && accepts(#[trigger] state@[j], sources@[state@[j].source as int]) ==> b
                    <= cursor_phase_index(state@[j], sources@, max_replacements),
        decreases state@.len() - i,
    {
        let cursor = &state[i];
        let source = &sources[cursor.source];
        proof {
            assert(cursor_valid(*cursor, sources@));
            assert(source_valid(*source, max_replacements));
        }
        if source_accepts(cursor, source) {
            let index = source.phase.index(max_replacements);
            best = match best {
                Some(b) => if index < b {
                    Some(index)
                } else {
                    Some(b)
                },
                None => Some(index),
            };
        }
        i = i + 1;
    }
    best
}

/// Count, per phase index, the distinct strings readable from a state,
/// each in the earliest phase whose source accepts it; `fuel` bounds the
/// length of the strings read
fn count_language_state(
    state: &Vec<LanguageCursor>,
    sources: &Vec<LanguageSource>,
    max_replacements: usize,
    memo: &mut CountMemo,
    fuel: usize,
) -> (result: Result<Vec<u128>, RecoverError>)
    requires
        max_replacements <= 100,
        sources_valid(sources@, max_replacements),
        shapes_valid(sources@),
        state_valid(state@, sources@),
        old(memo).valid((2 + 2 * max_replacements) as nat),
        old(memo).sound(sources@, max_replacements),
    ensures
        final(memo).valid((2 + 2 * max_replacements) as nat),
        final(memo).sound(sources@, max_replacements),
        match result {
            Ok(counts) => counts@.len() == 2 + 2 * max_replacements && tally_ok(
                state@,
                counts@,
                sources@,
                max_replacements,
            ),
            Err(error) => error == RecoverError::CountOverflow,
        },
    decreases fuel,
{
    let width: usize = 2 + 2 * max_replacements;
    let bucket = state_bucket(state);
    if let Some(index) = memo.find(state, bucket) {
        proof {
            assert(tally_ok(memo.states@[index as int]@, memo.counts@[index as int]@, sources@, max_replacements));
            lemma_tally_same_state(
                memo.states@[index as int]@,
                state@,
                memo.counts@[index as int]@,
                sources@,
                max_replacements,
            );
        }
        return Ok(copy_tally(&memo.counts[index]));
    }
    if fuel == 0 {
        return Err(RecoverError::CountOverflow);
    }
    let mut counts: Vec<u128> = Vec::new();
    let mut w: usize = 0;
    while w < width
        invariant
            w <= width,
            counts@.len() == w,
            forall|k: int| 0 <= k < w ==> #[trigger] counts@[k] == 0,
        decreases width - w,
    {
        counts.push(0);
        w = w + 1;
    }
    let best = earliest_accepting_phase(state, sources, max_replacements);
    if let Some(index) = best {
        counts.set(index, 1);
    }
    let ghost floor = counts@;
    proof {
        assert forall|i: int|
            0 <= i < state@.len() && accepts(#[trigger] state@[i], sources@[state@[i].source as int]) && (forall|j: int|
                0 <= j < state@.len() && accepts(#[trigger] state@[j], sources@[state@[j].source as int])
                    ==> cursor_phase_index(state@[i], sources@, max_replacements) <= cursor_phase_index(
                    state@[j],
                    sources@,
                    max_replacements,
                )) implies 0 <= cursor_phase_index(state@[i], sources@, max_replacements) < floor.len() && floor[cursor_phase_index(
            state@[i],
            sources@,
            max_replacements,
        )] >= 1 by {
            let b = best->Some_0;
            let j = choose|j: int|
                0 <= j < state@.len() && accepts(#[trigger] state@[j], sources@[state@[j].source as int]) && b
                    == cursor_phase_index(state@[j], sources@, max_replacements);
            assert(b <= cursor_phase_index(state@[i], sources@, max_replacements));
        }
    }
    let mut symbols: Vec<bool> = Vec::new();
    let mut b: usize = 0;
    while b < 256
        invariant
            b <= 256,
            symbols@.len() == b,
        decreases 256 - b,
    {
        symbols.push(false);
        b = b + 1;
    }
    let mut i: usize = 0;
    while i < state.len()
        invariant
            i <= state@.len(),
            symbols@.len() == 256,
            shapes_valid(sources@),
            state_valid(state@, sources@),
        decreases state@.len() - i,
    {
        proof {
            assert(cursor_valid(state@[i as int], sources@));
        }
        cursor_symbols(&state[i], sources, &mut symbols);
        i = i + 1;
    }
    let mut symbol: usize = 0;
    while symbol < 256
        invariant
            symbol <= 256,
            symbols@.len() == 256,
            max_replacements <= 100,
            width == 2 + 2 * max_replacements,
            counts@.len() == width,
            sources_valid(sources@, max_replacements),
            shapes_valid(sources@),
            state_valid(state@, sources@),
            memo.valid((2 + 2 * max_replacements) as nat),
            memo.sound(sources@, max_replacements),
            fuel > 0,
            floor.len() == width,
            forall|k: int| 0 <= k < width ==> floor[k] <= #[trigger] counts@[k],
        decreases 256 - symbol,
    {
        if symbols[symbol] {
            let mut next: Vec<LanguageCursor> = Vec::new();
            let mut i: usize = 0;
            while i < state.len()
                invariant
                    i <= state@.len(),
                    symbol < 256,
                    shapes_valid(sources@),
                    state_valid(state@, sources@),
                    state_valid(next@, sources@),
                    state_sorted(next@),
                decreases state@.len() - i,
            {
                proof {
                    assert(cursor_valid(state@[i as int], sources@));
                }
                advance_cursor(&state[i], sources, symbol as u8, &mut next);
                i = i + 1;
            }
            if next.len() > 0 {
                let child = count_language_state(&next, sources, max_replacements, memo, fuel - 1)?;
                let mut k: usize = 0;
                while k < width
                    invariant
                        k <= width,
                        counts@.len() == width,
                        child@.len() == width,
                        memo.valid((2 + 2 * max_replacements) as nat),
                        memo.sound(sources@, max_replacements),
                        floor.len() == width,
                        forall|x: int| 0 <= x < width ==> floor[x] <= #[trigger] counts@[x],
                    decreases width - k,
                {
                    match counts[k].checked_add(child[k]) {
                        Some(sum) => counts.set(k, sum),
                        None => return Err(RecoverError::CountOverflow),
                    }
                    k = k + 1;
                }
            }
        }
        symbol = symbol + 1;
    }
    let remembered = copy_state(state);
    let tally = copy_tally(&counts);
    proof {
        lemma_tally_grows(state@, floor, counts@, sources@, max_replacements);
        assert(same_state(state@, remembered@));
        lemma_tally_same_state(state@, remembered@, counts@, sources@, max_replacements);
    }
    let ghost old_states = memo.states@;
    let ghost old_counts = memo.counts@;
    memo.insert(remembered, tally, bucket);
    proof {
        assert forall|i: int| 0 <= i < memo.states@.len() implies tally_ok(
            (#[trigger] memo.states@[i])@,
            memo.counts@[i]@,
            sources@,
            max_replacements,
        ) by {
            if i < old_states.len() {
                assert(memo.states@[i] == old_states[i]);
                assert(memo.counts@[i] == old_counts[i]);
            }
        }
    }
    Ok(counts)
}


/// Every phase is enabled and every base agrees with the order mode
pub open spec fn phases_valid(phases: Seq<PhasePlan>, settings: RecoverySettings) -> bool {
    &&& forall|p: int| 0 <= p < phases.len() ==> phase_enabled(#[trigger] phases[p].phase, settings.max_replacements)
    &&& forall|p: int, b: int|
        0 <= p < phases.len() && 0 <= b < phases[p].bases@.len() ==> base_plan_valid(
            #[trigger] phases[p].bases@[b],
            settings.order,
        )
}

/// Appending a valid phase keeps a phase list valid
pub proof fn lemma_phases_push(phases: Seq<PhasePlan>, plan: PhasePlan, settings: RecoverySettings)
    requires
        phases_valid(phases, settings),
        phase_enabled(plan.phase, settings.max_replacements),
        forall|b: int| 0 <= b < plan.bases@.len() ==> base_plan_valid(#[trigger] plan.bases@[b], settings.order),
    ensures
        phases_valid(phases.push(plan), settings),
{
    let all = phases.push(plan);
    assert forall|p: int, b: int| 0 <= p < all.len() && 0 <= b < all[p].bases@.len() implies base_plan_valid(
        #[trigger] all[p].bases@[b],
        settings.order,
    ) by {
        if p < phases.len() {
            assert(all[p] == phases[p]);
            assert(base_plan_valid(phases[p].bases@[b], settings.order));
        } else {
            assert(all[p] == plan);
            assert(base_plan_valid(plan.bases@[b], settings.order));
        }
    }
    assert forall|p: int| 0 <= p < all.len() implies phase_enabled(#[trigger] all[p].phase, settings.max_replacements) by {
        if p < phases.len() {
            assert(all[p] == phases[p]);
        }
    }
}

/// Dropping the first phase keeps a phase list valid
pub proof fn lemma_phases_drop_first(phases: Seq<PhasePlan>, settings: RecoverySettings)
    requires
        phases_valid(phases, settings),
        phases.len() > 0,
    ensures
        phases_valid(phases.drop_first(), settings),
{
    let rest = phases.drop_first();
    assert forall|p: int, b: int| 0 <= p < rest.len() && 0 <= b < rest[p].bases@.len() implies base_plan_valid(
        #[trigger] rest[p].bases@[b],
        settings.order,
    ) by {
        assert(rest[p] == phases[p + 1]);
        assert(base_plan_valid(phases[p + 1].bases@[b], settings.order));
    }
    assert forall|p: int| 0 <= p < rest.len() implies phase_enabled(#[trigger] rest[p].phase, settings.max_replacements) by {
        assert(rest[p] == phases[p + 1]);
    }
}

fn written_positions(base: &BasePlan) -> (order: Vec<usize>)
    requires
        deep(base.keys@) == distinct_words(deep(base.words@)),
    ensures
        forall|k: int| 0 <= k < order@.len() ==> #[trigger] order@[k] < base.keys@.len(),
        order@.len() == base.words@.len(),
        forall|k: int| 0 <= k < order@.len() ==> base.keys@[#[trigger] order@[k] as int]@ == base.words@[k]@,
{
    let mut order: Vec<usize> = Vec::new();
    let mut i: usize = 0;
    while i < base.words.len()
        invariant
            i <= base.words@.len(),
            deep(base.keys@) == distinct_words(deep(base.words@)),
            forall|k: int| 0 <= k < order@.len() ==> #[trigger] order@[k] < base.keys@.len(),
            order@.len() == i,
            forall|k: int| 0 <= k < order@.len() ==> base.keys@[#[trigger] order@[k] as int]@ == base.words@[k]@,
        decreases base.words@.len() - i,
    {
        let position = match position_of(&base.keys, &base.words[i]) {
            Some(t) => t,
            None => {
                proof {
                    assert(deep(base.words@)[i as int] == base.words@[i as int]@);
                    lemma_distinct_contains(deep(base.words@), base.words@[i as int]@);
                    assert(false);
                }
                0
            },
        };
        order.push(position);
        i = i + 1;
    }
    order
}

/// Spacing profiles of a spacing mode
pub open spec fn profiles_spec(mode: SpacingMode) -> Seq<SpacingProfile> {
    match mode {
        SpacingMode::Concatenated => seq![SpacingProfile::Concatenated],
        SpacingMode::Between => seq![SpacingProfile::Between],
        SpacingMode::Both => seq![SpacingProfile::Concatenated, SpacingProfile::Between],
        SpacingMode::Coldcard => seq![SpacingProfile::Coldcard],
    }
}

/// Number of bases of the first `n` phases
pub open spec fn bases_before(phases: Seq<PhasePlan>, n: int) -> int
    decreases n,
{
    if n <= 0 {
        0
    } else {
        bases_before(phases, n - 1) + phases[n - 1].bases@.len()
    }
}

/// The source of a base of a phase under a spacing profile: the base's
/// distinct words and counts, and, when keeping the written order, the
/// position of each written word among them
pub open spec fn source_made(
    source: LanguageSource,
    phase: SearchPhase,
    base: BasePlan,
    profile: SpacingProfile,
    settings: RecoverySettings,
) -> bool {
    &&& source.phase == phase
    &&& deep(source.words@) == deep(base.keys@)
    &&& source.counts@ == base.counts@
    &&& source.spacing == profile
    &&& source.require_space == settings.concatenated_already_tried
    &&& match settings.order {
        OrderMode::Written => source.written_order matches Some(order) && order@.len() == base.words@.len() && forall|
            k: int,
        | 0 <= k < order@.len() ==> base.keys@[#[trigger] order@[k] as int]@ == base.words@[k]@,
        OrderMode::Permuted => source.written_order is None,
    }
}

proof fn lemma_bases_before_grows(phases: Seq<PhasePlan>, a: int, b: int)
    requires
        0 <= a < b <= phases.len(),
    ensures
        bases_before(phases, a) + phases[a].bases@.len() <= bases_before(phases, b),
    decreases b - a,
{
    if a + 1 < b {
        lemma_bases_before_grows(phases, a, b - 1);
    }
}

proof fn lemma_bases_before_nonnegative(phases: Seq<PhasePlan>, a: int)
    ensures
        bases_before(phases, a) >= 0,
    decreases a,
{
    if a > 0 {
        lemma_bases_before_nonnegative(phases, a - 1);
    }
}

proof fn lemma_slot_before(x: int, y: int, f2: int, f: int, width: int)
    requires
        0 <= x < y,
        0 <= f2 < width,
        0 <= f,
    ensures
        x * width + f2 < y * width + f,
{
    assert(x * width + width <= y * width) by (nonlinear_arith)
        requires
            x < y,
            width >= 0,
    ;
}

/// One source per base of every phase and per spacing profile of the mode
fn language_sources(phases: &Vec<PhasePlan>, settings: &RecoverySettings) -> (sources: Vec<LanguageSource>)
    requires
        phases_valid(phases@, *settings),
    ensures
        sources_valid(sources@, settings.max_replacements),
        shapes_valid(sources@),
        sources@.len() == bases_before(phases@, phases@.len() as int) * profiles_spec(settings.spacing).len(),
        forall|p: int, b: int, f: int|
            0 <= p < phases@.len() && 0 <= b < phases@[p].bases@.len() && 0 <= f < profiles_spec(settings.spacing).len()
                ==> source_made(
                #[trigger] sources@[(bases_before(phases@, p) + b) * profiles_spec(settings.spacing).len() + f],
                phases@[p].phase,
                #[trigger] phases@[p].bases@[b],
                profiles_spec(settings.spacing)[f],
                *settings,
            ),
{
    let mut profiles: Vec<SpacingProfile> = Vec::new();
    match settings.spacing {
        SpacingMode::Concatenated => profiles.push(SpacingProfile::Concatenated),
        SpacingMode::Between => profiles.push(SpacingProfile::Between),
        SpacingMode::Both => {
            profiles.push(SpacingProfile::Concatenated);
            profiles.push(SpacingProfile::Between);
        },
        SpacingMode::Coldcard => profiles.push(SpacingProfile::Coldcard),
    }
    let ghost width = profiles_spec(settings.spacing).len() as int;
    assert(profiles@ == profiles_spec(settings.spacing));
    let mut sources: Vec<LanguageSource> = Vec::new();
    let mut p: usize = 0;
    while p < phases.len()
        invariant
            p <= phases@.len(),
            phases_valid(phases@, *settings),
            sources_valid(sources@, settings.max_replacements),
            shapes_valid(sources@),
            profiles@ == profiles_spec(settings.spacing),
            width == profiles@.len(),
            sources@.len() == bases_before(phases@, p as int) * width,
            forall|p2: int, b2: int, f2: int|
                0 <= p2 < p && 0 <= b2 < phases@[p2].bases@.len() && 0 <= f2 < width ==> source_made(
                    #[trigger] sources@[(bases_before(phases@, p2) + b2) * width + f2],
                    phases@[p2].phase,
                    #[trigger] phases@[p2].bases@[b2],
                    profiles@[f2],
                    *settings,
                ),
        decreases phases@.len() - p,
    {
        let phase = &phases[p];
        let mut b: usize = 0;
        while b < phase.bases.len()
            invariant
                p < phases@.len(),
                phase == phases@[p as int],
                b <= phase.bases@.len(),
                phases_valid(phases@, *settings),
                sources_valid(sources@, settings.max_replacements),
                shapes_valid(sources@),
                profiles@ == profiles_spec(settings.spacing),
                width == profiles@.len(),
                sources@.len() == (bases_before(phases@, p as int) + b) * width,
                forall|p2: int, b2: int, f2: int|
                    (0 <= p2 < p && 0 <= b2 < phases@[p2].bases@.len() || p2 == p && 0 <= b2 < b) && 0 <= f2 < width
                        ==> source_made(
                        #[trigger] sources@[(bases_before(phases@, p2) + b2) * width + f2],
                        phases@[p2].phase,
                        #[trigger] phases@[p2].bases@[b2],
                        profiles@[f2],
                        *settings,
                    ),
            decreases phase.bases@.len() - b,
        {
            let base = &phase.bases[b];
            proof {
                assert(base_plan_valid(*base, settings.order));
                assert(phase_enabled(phase.phase, settings.max_replacements));
                assert forall|k: int| 0 <= k < base.keys@.len() implies is_letter_token(#[trigger] base.keys@[k]@) by {
                    assert(deep(base.keys@)[k] == base.keys@[k]@);
                    lemma_distinct_contains(deep(base.words@), base.keys@[k]@);
                    let j = choose|j: int| 0 <= j < deep(base.words@).len() && deep(base.words@)[j] == base.keys@[k]@;
                    assert(is_letter_token(deep(base.words@)[j]));
                }
            }
            let mut f: usize = 0;
            while f < profiles.len()
                invariant
                    p < phases@.len(),
                    phase == phases@[p as int],
                    b < phase.bases@.len(),
                    base == phase.bases@[b as int],
                    base_plan_valid(*base, settings.order),
                    phase_enabled(phase.phase, settings.max_replacements),
                    forall|k: int| 0 <= k < base.keys@.len() ==> is_letter_token(#[trigger] base.keys@[k]@),
                    sources_valid(sources@, settings.max_replacements),
                    shapes_valid(sources@),
                    profiles@ == profiles_spec(settings.spacing),
                    width == profiles@.len(),
                    f <= profiles@.len(),
                    sources@.len() == (bases_before(phases@, p as int) + b) * width + f,
                    forall|p2: int, b2: int, f2: int|
                        (0 <= p2 < p && 0 <= b2 < phases@[p2].bases@.len() || p2 == p && 0 <= b2 < b || p2 == p && b2
                            == b && 0 <= f2 < f) && 0 <= f2 < width ==> source_made(
                            #[trigger] sources@[(bases_before(phases@, p2) + b2) * width + f2],
                            phases@[p2].phase,
                            #[trigger] phases@[p2].bases@[b2],
                            profiles@[f2],
                            *settings,
                        ),
                decreases profiles@.len() - f,
            {
                let written_order = match settings.order {
                    OrderMode::Written => Some(written_positions(base)),
                    OrderMode::Permuted => None,
                };
                let source = LanguageSource {
                    phase: phase.phase,
                    words: copy_words(&base.keys),
                    counts: copy_counts(&base.counts),
                    spacing: profiles[f],
                    require_space: settings.concatenated_already_tried,
                    written_order,
                };
                proof {
                    assert forall|k: int| 0 <= k < source.words@.len() implies is_letter_token(
                        #[trigger] source.words@[k]@,
                    ) by {
                        assert(deep(source.words@)[k] == source.words@[k]@);
                        assert(deep(base.keys@)[k] == base.keys@[k]@);
                    }
                }
                proof {
                    assert(source_made(source, phase.phase, *base, profiles@[f as int], *settings));
                }
                let ghost before = sources@;
                sources.push(source);
                proof {
                    assert forall|p2: int, b2: int, f2: int|
                        (0 <= p2 < p && 0 <= b2 < phases@[p2].bases@.len() || p2 == p && 0 <= b2 < b || p2 == p && b2
                            == b && 0 <= f2 < f + 1) && 0 <= f2 < width implies source_made(
                            #[trigger] sources@[(bases_before(phases@, p2) + b2) * width + f2],
                            phases@[p2].phase,
                            #[trigger] phases@[p2].bases@[b2],
                            profiles@[f2],
                            *settings,
                        ) by {
                        let here = bases_before(phases@, p as int) + b;
                        if p2 == p && b2 == b && f2 == f {
                        } else {
                            let there = bases_before(phases@, p2) + b2;
                            lemma_bases_before_nonnegative(phases@, p2);
                            if p2 < p {
                                lemma_bases_before_grows(phases@, p2, p as int);
                                lemma_slot_before(there, here, f2, f as int, width);
                            } else if b2 < b {
                                lemma_slot_before(there, here, f2, f as int, width);
                            }
                            assert(sources@[there * width + f2] == before[there * width + f2]);
                        }
                    }
                    assert forall|i: int| 0 <= i < sources@.len() implies source_valid(
                        #[trigger] sources@[i],
                        settings.max_replacements,
                    ) by {
                        if i < before.len() {
                            assert(sources@[i] == before[i]);
                        }
                    }
                    assert forall|i: int| 0 <= i < sources@.len() implies source_valid_shape(#[trigger] sources@[i]) by {
                        if i < before.len() {
                            assert(sources@[i] == before[i]);
                        }
                    }
                }
                f = f + 1;
            }
            proof {
                let x = bases_before(phases@, p as int) + b;
                assert(x * width + width == (x + 1) * width) by (nonlinear_arith);
            }
            b = b + 1;
        }
        p = p + 1;
    }
    sources
}

/// Exact number of distinct candidate strings first produced by each phase,
/// indexed by phase position
pub(crate) fn unique_phase_counts(phases: &Vec<PhasePlan>, settings: &RecoverySettings) -> (result: Result<
    Vec<u128>,
    RecoverError,
>)
    requires
        phases_valid(phases@, *settings),
        settings.max_replacements <= 100,
    ensures
        match result {
            Ok(counts) => counts@.len() == 2 + 2 * settings.max_replacements,
            Err(error) => error == RecoverError::CountOverflow,
        },
{
    let sources = language_sources(phases, settings);
    let mut state: Vec<LanguageCursor> = Vec::new();
    let mut longest: u128 = 0;
    let mut s: usize = 0;
    while s < sources.len()
        invariant
            s <= sources@.len(),
            shapes_valid(sources@),
            state_valid(state@, sources@),
            state_sorted(state@),
        decreases sources@.len() - s,
    {
        let source = &sources[s];
        proof {
            assert(source_valid_shape(*source));
        }
        let cursor = LanguageCursor {
            source: s,
            remaining: copy_counts(&source.counts),
            active: None,
            has_case: false,
            emitted: 0,
            has_space: false,
        };
        let ghost before = state@;
        insert_cursor(&mut state, cursor);
        proof {
            assert forall|i: int| 0 <= i < state@.len() implies cursor_valid(#[trigger] state@[i], sources@) by {
                if state@[i] != cursor {
                    let j = choose|j: int| 0 <= j < before.len() && before[j] == state@[i];
                    assert(cursor_valid(before[j], sources@));
                }
            }
        }
        let mut length: u128 = 0;
        let mut k: usize = 0;
        while k < source.words.len()
            invariant
                k <= source.words@.len(),
                source.words@.len() == source.counts@.len(),
            decreases source.words@.len() - k,
        {
            let width = source.words[k].len() as u128 + 2;
            let times = source.counts[k] as u128;
            assert(width * times <= u128::MAX) by (nonlinear_arith)
                requires
                    width <= 0x1_0000_0000_0000_0001,
                    times <= 0xFFFF_FFFF_FFFF_FFFF,
            ;
            let piece = width * times;
            length = length.saturating_add(piece);
            k = k + 1;
        }
        if length > longest {
            longest = length;
        }
        s = s + 1;
    }
    let fuel: usize = if longest >= (usize::MAX as u128) {
        usize::MAX
    } else {
        longest as usize + 1
    };
    let mut memo = CountMemo::new(2 + 2 * settings.max_replacements);
    count_language_state(&state, &sources, settings.max_replacements, &mut memo, fuel)
}

} // verus!
