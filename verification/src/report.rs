//! Text shown to the operator

use vstd::prelude::*;

use vstd::string::StrSliceExecFns;

use crate::domain::{trim_of, trimmed};
use crate::mnemonic::{ascii_lowercase, lower_chars};
use crate::phase::decimal;

verus! {

/// Decimal digits grouped in threes from the right, separated by commas
pub open spec fn grouped_digits(digits: Seq<char>) -> Seq<char>
    decreases digits.len(),
{
    if digits.len() <= 3 {
        digits
    } else {
        grouped_digits(digits.subrange(0, digits.len() - 3)) + seq![','] + digits.subrange(
            digits.len() - 3,
            digits.len() as int,
        )
    }
}

fn decimal_u128(n: u128) -> (text: Vec<char>)
    ensures
        text@ == decimal(n as nat),
    decreases n,
{
    if n < 10 {
        let mut text: Vec<char> = Vec::new();
        text.push(((48 + n) as u8) as char);
        return text;
    }
    let mut text = decimal_u128(n / 10);
    text.push(((48 + n % 10) as u8) as char);
    text
}

fn group_digits(digits: &Vec<char>, end: usize) -> (grouped: Vec<char>)
    requires
        end <= digits@.len(),
    ensures
        grouped@ == grouped_digits(digits@.take(end as int)),
    decreases end,
{
    if end <= 3 {
        let mut grouped: Vec<char> = Vec::new();
        let mut i: usize = 0;
        while i < end
            invariant
                end <= 3,
                end <= digits@.len(),
                i <= end,
                grouped@ == digits@.take(i as int),
            decreases end - i,
        {
            grouped.push(digits[i]);
            i = i + 1;
            assert(grouped@ =~= digits@.take(i as int));
        }
        return grouped;
    }
    let mut grouped = group_digits(digits, end - 3);
    grouped.push(',');
    grouped.push(digits[end - 3]);
    grouped.push(digits[end - 2]);
    grouped.push(digits[end - 1]);
    proof {
        let taken = digits@.take(end as int);
        assert(taken.subrange(0, taken.len() - 3) =~= digits@.take(end - 3));
        assert(grouped@ =~= grouped_digits(digits@.take(end - 3)) + seq![','] + taken.subrange(
            taken.len() - 3,
            taken.len() as int,
        ));
    }
    grouped
}

/// The string of some characters
///
/// Collects the characters with `Iterator::collect`, which appends each
/// in order.
#[verifier::external_body]
fn text_of_chars(chars: &Vec<char>) -> (text: String)
    ensures
        text@ == chars@,
{
    chars.iter().collect()
}

/// A count with thousands separators
pub fn format_count(value: u128) -> (text: String)
    ensures
        text@ == grouped_digits(decimal(value as nat)),
{
    let digits = decimal_u128(value);
    let grouped = group_digits(&digits, digits.len());
    proof {
        assert(digits@.take(digits@.len() as int) =~= digits@);
    }
    text_of_chars(&grouped)
}

/// An answer that accepts a confirmation prompt: "y" or "yes", in any ASCII
/// case, with surrounding whitespace ignored
pub open spec fn affirmative(answer: Seq<char>) -> bool {
    let word = lower_chars(trim_of(answer));
    word == seq!['y'] || word == seq!['y', 'e', 's']
}

/// Whether an answer to a confirmation prompt accepts it
pub fn is_affirmative(answer: &str) -> (yes: bool)
    ensures
        yes == affirmative(answer@),
{
    let word = ascii_lowercase(trimmed(answer));
    let text = word.as_str();
    let n = text.unicode_len();
    if n == 1 {
        let yes = text.get_char(0) == 'y';
        proof {
            if yes {
                assert(text@ =~= seq!['y']);
            }
        }
        yes
    } else if n == 3 {
        let yes = text.get_char(0) == 'y' && text.get_char(1) == 'e' && text.get_char(2) == 's';
        proof {
            if yes {
                assert(text@ =~= seq!['y', 'e', 's']);
            } else {
                assert(text@ != seq!['y', 'e', 's']) by {
                    if text@ == seq!['y', 'e', 's'] {
                        assert(text@[0] == 'y' && text@[1] == 'e' && text@[2] == 's');
                    }
                }
            }
        }
        yes
    } else {
        proof {
            assert(seq!['y'].len() == 1 && seq!['y', 'e', 's'].len() == 3);
        }
        false
    }
}

} // verus!
