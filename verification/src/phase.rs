use vstd::prelude::*;
use vstd::string::StrSliceExecFns;

verus! {

/// Ordered recovery phases, from most likely to largest search space
#[derive(Debug, Clone, Copy, PartialEq, Eq, Structural, Hash, PartialOrd, Ord)]
pub enum SearchPhase {
    /// Written words, lowercase, in every unique order
    WrittenLower,
    /// Written words with lowercase, Title, and UPPER variants
    WrittenCase,
    /// The given number of nearest-word substitutions, lowercase
    NeighborLower(usize),
    /// The given number of nearest-word substitutions with capitalization variants
    NeighborCase(usize),
}

/// Position of a phase in the global execution order, as a pair compared
/// lexicographically: variant first, then substitution count
pub open spec fn phase_order(phase: SearchPhase) -> (int, int) {
    match phase {
        SearchPhase::WrittenLower => (0, 0),
        SearchPhase::WrittenCase => (1, 0),
        SearchPhase::NeighborLower(k) => (2, k as int),
        SearchPhase::NeighborCase(k) => (3, k as int),
    }
}

/// `a` strictly precedes `b` in execution order
pub open spec fn phase_lt(a: SearchPhase, b: SearchPhase) -> bool {
    let (x, y) = (phase_order(a), phase_order(b));
    x.0 < y.0 || (x.0 == y.0 && x.1 < y.1)
}

/// `a` precedes or equals `b` in execution order
pub open spec fn phase_le(a: SearchPhase, b: SearchPhase) -> bool {
    phase_lt(a, b) || a == b
}

/// The phase is one of the phases produced for a replacement limit
pub open spec fn phase_enabled(phase: SearchPhase, max_replacements: usize) -> bool {
    match phase {
        SearchPhase::WrittenLower | SearchPhase::WrittenCase => true,
        SearchPhase::NeighborLower(k) | SearchPhase::NeighborCase(k) => 1 <= k <= max_replacements,
    }
}

pub open spec fn spec_replacement_count(phase: SearchPhase) -> usize {
    match phase {
        SearchPhase::WrittenLower | SearchPhase::WrittenCase => 0,
        SearchPhase::NeighborLower(k) | SearchPhase::NeighborCase(k) => k,
    }
}

pub open spec fn spec_includes_case_variants(phase: SearchPhase) -> bool {
    match phase {
        SearchPhase::WrittenCase | SearchPhase::NeighborCase(_) => true,
        _ => false,
    }
}

/// Position of an enabled phase in the execution order for a replacement limit
pub open spec fn spec_phase_index(phase: SearchPhase, max_replacements: usize) -> int {
    match phase {
        SearchPhase::WrittenLower => 0,
        SearchPhase::WrittenCase => 1,
        SearchPhase::NeighborLower(k) => 1 + k,
        SearchPhase::NeighborCase(k) => 1 + max_replacements + k,
    }
}

/// The phase at a position of the execution order for a replacement limit
pub open spec fn spec_phase_at(index: int, max_replacements: usize) -> SearchPhase {
    if index == 0 {
        SearchPhase::WrittenLower
    } else if index == 1 {
        SearchPhase::WrittenCase
    } else if index <= 1 + max_replacements {
        SearchPhase::NeighborLower((index - 1) as usize)
    } else {
        SearchPhase::NeighborCase((index - 1 - max_replacements) as usize)
    }
}

/// Successor in execution order; a phase past the end of its group moves on
pub open spec fn spec_next_phase(phase: SearchPhase, max_replacements: usize) -> Option<SearchPhase> {
    match phase {
        SearchPhase::WrittenLower => Some(SearchPhase::WrittenCase),
        SearchPhase::WrittenCase => if max_replacements >= 1 {
            Some(SearchPhase::NeighborLower(1))
        } else {
            None
        },
        SearchPhase::NeighborLower(k) => if k < max_replacements {
            Some(SearchPhase::NeighborLower((k + 1) as usize))
        } else if max_replacements >= 1 {
            Some(SearchPhase::NeighborCase(1))
        } else {
            None
        },
        SearchPhase::NeighborCase(k) => if k < max_replacements {
            Some(SearchPhase::NeighborCase((k + 1) as usize))
        } else {
            None
        },
    }
}

impl SearchPhase {
    /// Number of substitutions represented by this phase
    pub fn replacement_count(self) -> (count: usize)
        ensures
            count == spec_replacement_count(self),
    {
        match self {
            SearchPhase::WrittenLower | SearchPhase::WrittenCase => 0,
            SearchPhase::NeighborLower(k) | SearchPhase::NeighborCase(k) => k,
        }
    }

    /// Whether this phase enumerates capitalization variants
    pub fn includes_case_variants(self) -> (variants: bool)
        ensures
            variants == spec_includes_case_variants(self),
    {
        match self {
            SearchPhase::WrittenCase | SearchPhase::NeighborCase(_) => true,
            _ => false,
        }
    }

    /// Position of this phase in the global execution order
    pub fn index(self, max_replacements: usize) -> (index: usize)
        requires
            phase_enabled(self, max_replacements),
            max_replacements < usize::MAX / 2,
        ensures
            index == spec_phase_index(self, max_replacements),
            spec_phase_at(index as int, max_replacements) == self,
            index < 2 + 2 * max_replacements,
    {
        match self {
            SearchPhase::WrittenLower => 0,
            SearchPhase::WrittenCase => 1,
            SearchPhase::NeighborLower(k) => 1 + k,
            SearchPhase::NeighborCase(k) => 1 + max_replacements + k,
        }
    }

    /// Next phase in the global execution order
    pub fn next(self, max_replacements: usize) -> (next: Option<SearchPhase>)
        ensures
            next == spec_next_phase(self, max_replacements),
    {
        match self {
            SearchPhase::WrittenLower => Some(SearchPhase::WrittenCase),
            SearchPhase::WrittenCase => if max_replacements >= 1 {
                Some(SearchPhase::NeighborLower(1))
            } else {
                None
            },
            SearchPhase::NeighborLower(k) => if k < max_replacements {
                Some(SearchPhase::NeighborLower(k + 1))
            } else if max_replacements >= 1 {
                Some(SearchPhase::NeighborCase(1))
            } else {
                None
            },
            SearchPhase::NeighborCase(k) => if k < max_replacements {
                Some(SearchPhase::NeighborCase(k + 1))
            } else {
                None
            },
        }
    }

    /// Whether this phase comes strictly after `other` in execution order
    pub fn is_after(self, other: SearchPhase) -> (after: bool)
        ensures
            after == phase_lt(other, self),
    {
        let (a, b) = (order_pair(self), order_pair(other));
        b.0 < a.0 || (b.0 == a.0 && b.1 < a.1)
    }

    /// All enabled phases in execution order
    pub fn all(max_replacements: usize) -> (phases: Vec<SearchPhase>)
        requires
            max_replacements < usize::MAX / 2,
        ensures
            phases@.len() == 2 + 2 * max_replacements,
            forall|i: int| 0 <= i < phases@.len() ==> #[trigger] phases@[i] == spec_phase_at(i, max_replacements),
    {
        let mut phases = Vec::new();
        phases.push(SearchPhase::WrittenLower);
        phases.push(SearchPhase::WrittenCase);
        let mut k: usize = 1;
        while k <= max_replacements
            invariant
                1 <= k <= max_replacements + 1,
                max_replacements < usize::MAX / 2,
                phases@.len() == k + 1,
                forall|i: int| 0 <= i < phases@.len() ==> #[trigger] phases@[i] == spec_phase_at(i, max_replacements),
            decreases max_replacements + 1 - k,
        {
            phases.push(SearchPhase::NeighborLower(k));
            k = k + 1;
        }
        k = 1;
        while k <= max_replacements
            invariant
                1 <= k <= max_replacements + 1,
                max_replacements < usize::MAX / 2,
                phases@.len() == max_replacements + k + 1,
                forall|i: int| 0 <= i < phases@.len() ==> #[trigger] phases@[i] == spec_phase_at(i, max_replacements),
            decreases max_replacements + 1 - k,
        {
            phases.push(SearchPhase::NeighborCase(k));
            k = k + 1;
        }
        phases
    }
}

fn order_pair(phase: SearchPhase) -> (pair: (u8, usize))
    ensures
        pair.0 as int == phase_order(phase).0,
        pair.1 as int == phase_order(phase).1,
{
    match phase {
        SearchPhase::WrittenLower => (0, 0),
        SearchPhase::WrittenCase => (1, 0),
        SearchPhase::NeighborLower(k) => (2, k),
        SearchPhase::NeighborCase(k) => (3, k),
    }
}

/// Execution order is exactly the successor relation: an enabled phase's
/// successor is the phase at the next index, and it comes strictly later
pub proof fn lemma_next_phase_follows_index(phase: SearchPhase, max_replacements: usize)
    requires
        phase_enabled(phase, max_replacements),
    ensures
        spec_next_phase(phase, max_replacements) is Some <==> spec_phase_index(phase, max_replacements) + 1 < 2 + 2 * max_replacements,
        spec_next_phase(phase, max_replacements) matches Some(next) ==> {
            &&& next == spec_phase_at(spec_phase_index(phase, max_replacements) + 1, max_replacements)
            &&& phase_enabled(next, max_replacements)
            &&& phase_lt(phase, next)
        },
{
}


/// Decimal digits of a number, most significant first
pub open spec fn decimal(n: nat) -> Seq<char>
    decreases n,
{
    if n < 10 {
        seq![(48 + n) as char]
    } else {
        decimal(n / 10).push((48 + n % 10) as char)
    }
}

/// Name of a phase as written on the command line and in state files
pub open spec fn phase_name(phase: SearchPhase) -> Seq<char> {
    match phase {
        SearchPhase::WrittenLower => "written-lower"@,
        SearchPhase::WrittenCase => "written-case"@,
        SearchPhase::NeighborLower(k) => "neighbor-"@ + decimal(k as nat) + "-lower"@,
        SearchPhase::NeighborCase(k) => "neighbor-"@ + decimal(k as nat) + "-case"@,
    }
}

/// Decimal text of a number
pub fn decimal_text(n: usize) -> (text: String)
    ensures
        text@ == decimal(n as nat),
    decreases n,
{
    if n < 10 {
        return String::from_str(digit_text(n));
    }
    let mut text = decimal_text(n / 10);
    text.append(digit_text(n % 10));
    text
}

fn digit_text(digit: usize) -> (text: &'static str)
    requires
        digit < 10,
    ensures
        text@ == seq![(48 + digit) as char],
{
    proof {
        reveal_strlit("0");
        reveal_strlit("1");
        reveal_strlit("2");
        reveal_strlit("3");
        reveal_strlit("4");
        reveal_strlit("5");
        reveal_strlit("6");
        reveal_strlit("7");
        reveal_strlit("8");
        reveal_strlit("9");
    }
    match digit {
        0 => "0",
        1 => "1",
        2 => "2",
        3 => "3",
        4 => "4",
        5 => "5",
        6 => "6",
        7 => "7",
        8 => "8",
        _ => "9",
    }
}

impl SearchPhase {
    /// Name of the phase, such as `written-case` or `neighbor-2-lower`
    pub fn name(self) -> (name: String)
        ensures
            name@ == phase_name(self),
    {
        match self {
            SearchPhase::WrittenLower => String::from_str("written-lower"),
            SearchPhase::WrittenCase => String::from_str("written-case"),
            SearchPhase::NeighborLower(k) => {
                let mut text = String::from_str("neighbor-");
                text.append(decimal_text(k).as_str());
                text.append("-lower");
                text
            },
            SearchPhase::NeighborCase(k) => {
                let mut text = String::from_str("neighbor-");
                text.append(decimal_text(k).as_str());
                text.append("-case");
                text
            },
        }
    }
}


/// Execution order is a strict total order on phases
pub proof fn lemma_phase_order_total(a: SearchPhase, b: SearchPhase)
    ensures
        phase_lt(a, b) || phase_lt(b, a) || a == b,
        !(phase_lt(a, b) && phase_lt(b, a)),
        !phase_lt(a, a),
{
}


fn same_text(a: &str, b: &str) -> (eq: bool)
    ensures
        eq == (a@ == b@),
{
    proof {
        vstd::utf8::encode_utf8_decode_utf8(a@);
        vstd::utf8::encode_utf8_decode_utf8(b@);
    }
    crate::bytes::bytes_eq(a.as_bytes(), b.as_bytes())
}

/// A character among '0' to '9'
pub open spec fn is_digit(c: char) -> bool {
    48 <= c as int <= 57
}

/// Every character is a decimal digit
pub open spec fn all_digits(digits: Seq<char>) -> bool {
    forall|i: int| 0 <= i < digits.len() ==> is_digit(#[trigger] digits[i])
}

/// Number written by decimal digits, most significant first
pub open spec fn digits_value_of(digits: Seq<char>) -> nat
    decreases digits.len(),
{
    if digits.len() == 0 {
        0
    } else {
        digits_value_of(digits.drop_last()) * 10 + (digits.last() as int - 48) as nat
    }
}

/// The decimal digits of a number are digits and read back as that number
proof fn lemma_decimal_reads_back(n: nat)
    ensures
        decimal(n).len() >= 1,
        all_digits(decimal(n)),
        digits_value_of(decimal(n)) == n,
    decreases n,
{
    if n < 10 {
        assert(decimal(n).drop_last() =~= Seq::<char>::empty());
        assert(decimal(n).last() as int == 48 + n);
        assert(digits_value_of(decimal(n).drop_last()) == 0);
    } else {
        lemma_decimal_reads_back(n / 10);
        assert(decimal(n).drop_last() =~= decimal(n / 10));
        assert(decimal(n).last() as int == 48 + n % 10);
        assert((n / 10) * 10 + n % 10 == n) by (nonlinear_arith);
        assert(digits_value_of(decimal(n)) == digits_value_of(decimal(n / 10)) * 10 + n % 10);
    }
}

/// A prefix of digits reads as no more than the whole
proof fn lemma_digit_prefix_smaller(digits: Seq<char>, i: int)
    requires
        all_digits(digits),
        0 <= i <= digits.len(),
    ensures
        digits_value_of(digits.take(i)) <= digits_value_of(digits),
    decreases digits.len(),
{
    if i < digits.len() {
        assert(digits.drop_last().take(i) =~= digits.take(i));
        lemma_digit_prefix_smaller(digits.drop_last(), i);
    } else {
        assert(digits.take(i) =~= digits);
    }
}

/// Number written in the decimal digits of `text[start..end]`, if every
/// character there is a digit, there is one, and the number fits
fn digits_value(text: &str, start: usize, end: usize) -> (value: Option<usize>)
    requires
        start <= end <= text@.len(),
    ensures
        value matches Some(v) ==> start < end && all_digits(text@.subrange(start as int, end as int)) && v
            == digits_value_of(text@.subrange(start as int, end as int)),
        start < end && all_digits(text@.subrange(start as int, end as int)) && digits_value_of(
            text@.subrange(start as int, end as int),
        ) <= usize::MAX ==> value is Some,
{
    if start == end {
        return None;
    }
    let ghost digits = text@.subrange(start as int, end as int);
    let mut value: usize = 0;
    let mut i: usize = start;
    while i < end
        invariant
            start <= i <= end,
            end <= text@.len(),
            digits == text@.subrange(start as int, end as int),
            all_digits(digits.take(i - start)),
            value == digits_value_of(digits.take(i - start)),
        decreases end - i,
    {
        let c = text.get_char(i);
        proof {
            assert(digits.take(i - start + 1).drop_last() =~= digits.take(i - start));
            assert(digits[i - start] == c);
        }
        if !('0' <= c && c <= '9') {
            return None;
        }
        let digit = (c as u32 - 48) as usize;
        proof {
            if all_digits(digits) && digits_value_of(digits) <= usize::MAX {
                lemma_digit_prefix_smaller(digits, i - start + 1);
            }
        }
        value = match value.checked_mul(10) {
            Some(v) => match v.checked_add(digit) {
                Some(v) => v,
                None => return None,
            },
            None => return None,
        };
        proof {
            assert forall|j: int| 0 <= j < digits.take(i - start + 1).len() implies is_digit(
                #[trigger] digits.take(i - start + 1)[j],
            ) by {
                if j < i - start {
                    assert(digits.take(i - start + 1)[j] == digits.take(i - start)[j]);
                }
            }
        }
        i = i + 1;
    }
    proof {
        assert(digits.take(end - start) =~= digits);
    }
    Some(value)
}

impl SearchPhase {
    /// The phase with the given name, if any: exactly the names that `name`
    /// writes are accepted
    pub fn parse_name(text: &str) -> (phase: Option<SearchPhase>)
        ensures
            phase matches Some(p) ==> phase_name(p) == text@,
            forall|p: SearchPhase| phase_name(p) == text@ ==> phase == Some(p),
    {
        proof {
            reveal_strlit("written-lower");
            reveal_strlit("written-case");
            reveal_strlit("neighbor-");
            reveal_strlit("-lower");
            reveal_strlit("-case");
        }
        let lower = SearchPhase::WrittenLower.name();
        if same_text(lower.as_str(), text) {
            proof {
                assert forall|p: SearchPhase| phase_name(p) == text@ implies p == SearchPhase::WrittenLower by {
                    assert(text@[0] == 'w');
                    assert(phase_name(p)[0] == text@[0]);
                    assert(phase_name(p).len() == 13);
                }
            }
            return Some(SearchPhase::WrittenLower);
        }
        let case = SearchPhase::WrittenCase.name();
        if same_text(case.as_str(), text) {
            proof {
                assert forall|p: SearchPhase| phase_name(p) == text@ implies p == SearchPhase::WrittenCase by {
                    assert(text@[0] == 'w');
                    assert(phase_name(p)[0] == text@[0]);
                    assert(phase_name(p).len() == 12);
                }
            }
            return Some(SearchPhase::WrittenCase);
        }
        let prefix: usize = 9;
        let n = text.unicode_len();
        if n <= prefix {
            proof {
                assert forall|p: SearchPhase| phase_name(p) != text@ by {
                    assert(phase_name(p).len() > 9);
                }
            }
            return None;
        }
        let mut end = n;
        while end > prefix && text.get_char(end - 1) != '-'
            invariant
                prefix <= end <= text@.len(),
                n == text@.len(),
                forall|j: int| end <= j < n ==> text@[j] != '-',
            decreases end,
        {
            end = end - 1;
        }
        proof {
            assert forall|p: SearchPhase| phase_name(p) == text@ implies (match p {
                SearchPhase::NeighborLower(k) => end == prefix + decimal(k as nat).len() + 1 && text@.subrange(
                    prefix as int,
                    end - 1,
                ) == decimal(k as nat) && all_digits(decimal(k as nat)) && digits_value_of(decimal(k as nat)) == k,
                SearchPhase::NeighborCase(k) => end == prefix + decimal(k as nat).len() + 1 && text@.subrange(
                    prefix as int,
                    end - 1,
                ) == decimal(k as nat) && all_digits(decimal(k as nat)) && digits_value_of(decimal(k as nat)) == k,
                _ => false,
            }) by {
                match p {
                    SearchPhase::NeighborLower(k) => {
                        lemma_name_splits(k, "-lower"@, text@, end as int);
                    },
                    SearchPhase::NeighborCase(k) => {
                        lemma_name_splits(k, "-case"@, text@, end as int);
                    },
                    _ => {},
                }
            }
        }
        if end <= prefix {
            return None;
        }
        let k = match digits_value(text, prefix, end - 1) {
            Some(k) => k,
            None => return None,
        };
        let neighbor_lower = SearchPhase::NeighborLower(k).name();
        if same_text(neighbor_lower.as_str(), text) {
            return Some(SearchPhase::NeighborLower(k));
        }
        let neighbor_case = SearchPhase::NeighborCase(k).name();
        if same_text(neighbor_case.as_str(), text) {
            return Some(SearchPhase::NeighborCase(k));
        }
        None
    }
}

/// In a neighbor name, the last dash found scanning back from the end stops
/// right after the digits of the replacement count
proof fn lemma_name_splits(k: usize, suffix: Seq<char>, text: Seq<char>, end: int)
    requires
        text == "neighbor-"@ + decimal(k as nat) + suffix,
        suffix.len() >= 1,
        suffix[0] == '-',
        forall|j: int| 1 <= j < suffix.len() ==> suffix[j] != '-',
        9 <= end <= text.len(),
        forall|j: int| end <= j < text.len() ==> text[j] != '-',
        end > 9 ==> text[end - 1] == '-',
        "neighbor-"@.len() == 9,
    ensures
        end == 9 + decimal(k as nat).len() + 1,
        text.subrange(9, end - 1) == decimal(k as nat),
        all_digits(decimal(k as nat)),
        digits_value_of(decimal(k as nat)) == k,
{
    lemma_decimal_reads_back(k as nat);
    let d = decimal(k as nat);
    let dash: int = 9 + d.len() as int;
    assert(text[dash] == suffix[0]);
    assert forall|j: int| dash < j < text.len() implies text[j] != '-' by {
        assert(text[j] == suffix[j - dash]);
    }
    assert forall|j: int| 9 <= j < dash implies text[j] != '-' by {
        assert(text[j] == d[j - 9]);
        assert(is_digit(d[j - 9]));
    }
    assert(text.subrange(9, dash) =~= d);
}

} // verus!
