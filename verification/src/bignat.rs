//! Natural numbers of any size, as little-endian bits, for entropy ranks and
//! search sizes

use vstd::arithmetic::div_mod::lemma_div_denominator;
use vstd::arithmetic::power2::{lemma_pow2_pos, pow2};
use vstd::prelude::*;

use crate::phase::decimal;

verus! {

/// Value of little-endian bits
pub open spec fn bits_value(bits: Seq<bool>) -> nat
    decreases bits.len(),
{
    if bits.len() == 0 {
        0
    } else {
        (if bits[0] {
            1nat
        } else {
            0nat
        }) + 2 * bits_value(bits.drop_first())
    }
}

/// Bit `i` of a number
pub open spec fn nat_bit(value: nat, i: nat) -> bool {
    (value / pow2(i)) % 2 == 1
}

/// A natural number of any size
#[derive(Debug)]
pub struct BigNat {
    bits: Vec<bool>,
}

/// Bits after one increment
pub open spec fn incremented(bits: Seq<bool>) -> Seq<bool>
    decreases bits.len(),
{
    if bits.len() == 0 {
        seq![true]
    } else if !bits[0] {
        bits.update(0, true)
    } else {
        seq![false] + incremented(bits.drop_first())
    }
}

proof fn lemma_incremented(bits: Seq<bool>)
    ensures
        bits_value(incremented(bits)) == bits_value(bits) + 1,
    decreases bits.len(),
{
    let r = incremented(bits);
    if bits.len() == 0 {
        assert(r.drop_first() =~= Seq::<bool>::empty());
        assert(bits_value(r) == 1 + 2 * bits_value(r.drop_first()));
    } else if !bits[0] {
        assert(r.drop_first() =~= bits.drop_first());
        assert(r.len() == bits.len() && r[0]);
        assert(bits_value(r) == 1 + 2 * bits_value(r.drop_first()));
    } else {
        lemma_incremented(bits.drop_first());
        assert(r.drop_first() =~= incremented(bits.drop_first()));
        assert(r.len() > 0 && !r[0]);
        assert(bits_value(r) == 2 * bits_value(r.drop_first()));
    }
}

proof fn lemma_all_zero(bits: Seq<bool>)
    ensures
        bits_value(bits) == 0 <==> forall|i: int| 0 <= i < bits.len() ==> !#[trigger] bits[i],
    decreases bits.len(),
{
    if bits.len() > 0 {
        lemma_all_zero(bits.drop_first());
        if bits_value(bits) == 0 {
            assert forall|i: int| 0 <= i < bits.len() implies !#[trigger] bits[i] by {
                if i > 0 {
                    assert(bits.drop_first()[i - 1] == bits[i]);
                }
            }
        }
        if forall|i: int| 0 <= i < bits.len() ==> !#[trigger] bits[i] {
            assert forall|i: int| 0 <= i < bits.drop_first().len() implies !#[trigger] bits.drop_first()[i] by {
                assert(bits.drop_first()[i] == bits[i + 1]);
            }
            assert(!bits[0]);
        }
    }
}

/// A number is below 2^n exactly when its bits from `n` up are clear
pub proof fn lemma_below_power(bits: Seq<bool>, n: nat)
    ensures
        bits_value(bits) < pow2(n) <==> forall|i: int| n <= i < bits.len() ==> !#[trigger] bits[i],
    decreases bits.len(), n,
{
    lemma_pow2_pos(n);
    if n == 0 {
        lemma_all_zero(bits);
        assert(pow2(0) == 1) by {
            vstd::arithmetic::power2::lemma2_to64();
        }
    } else if bits.len() == 0 {
    } else {
        let rest = bits.drop_first();
        lemma_below_power(rest, (n - 1) as nat);
        assert(pow2(n) == 2 * pow2((n - 1) as nat)) by {
            vstd::arithmetic::power2::lemma_pow2_unfold(n);
        }
        if bits_value(bits) < pow2(n) {
            assert forall|i: int| n <= i < bits.len() implies !#[trigger] bits[i] by {
                assert(rest[i - 1] == bits[i]);
            }
        }
        if forall|i: int| n <= i < bits.len() ==> !#[trigger] bits[i] {
            assert forall|i: int| n - 1 <= i < rest.len() implies !#[trigger] rest[i] by {
                assert(rest[i] == bits[i + 1]);
            }
        }
    }
}

/// Bit `i` of the value is the stored bit, or clear beyond the stored ones
pub proof fn lemma_bit_of_value(bits: Seq<bool>, i: nat)
    ensures
        nat_bit(bits_value(bits), i) == (i < bits.len() && bits[i as int]),
    decreases bits.len(),
{
    lemma_pow2_pos(i);
    let v = bits_value(bits);
    if bits.len() == 0 {
        assert(0nat / pow2(i) == 0) by (nonlinear_arith)
            requires
                pow2(i) > 0,
        ;
    } else {
        let rest = bits.drop_first();
        let b: nat = if bits[0] {
            1
        } else {
            0
        };
        let r = bits_value(rest);
        assert(v == b + 2 * r);
        if i == 0 {
            assert(pow2(0) == 1) by {
                vstd::arithmetic::power2::lemma2_to64();
            }
            assert((b + 2 * r) / 1 == b + 2 * r);
            assert((b + 2 * r) % 2 == b) by (nonlinear_arith)
                requires
                    b < 2,
            ;
        } else {
            lemma_bit_of_value(rest, (i - 1) as nat);
            lemma_pow2_pos((i - 1) as nat);
            assert(pow2(i) == 2 * pow2((i - 1) as nat)) by {
                vstd::arithmetic::power2::lemma_pow2_unfold(i);
            }
            lemma_div_denominator((b + 2 * r) as int, 2, pow2((i - 1) as nat) as int);
            assert((b + 2 * r) / 2 == r) by (nonlinear_arith)
                requires
                    b < 2,
            ;
            if i < bits.len() {
                assert(rest[i - 1] == bits[i as int]);
            }
        }
    }
}

impl BigNat {
    pub closed spec fn value(&self) -> nat {
        bits_value(self.bits@)
    }

    pub closed spec fn bits_view(&self) -> Seq<bool> {
        self.bits@
    }

    /// Zero
    pub fn zero() -> (n: Self)
        ensures
            n.value() == 0,
    {
        BigNat { bits: Vec::new() }
    }

    /// The number with these little-endian bits
    pub fn from_bits(bits: Vec<bool>) -> (n: Self)
        ensures
            n.value() == bits_value(bits@),
            n.bits_view() == bits@,
    {
        BigNat { bits }
    }

    /// Little-endian bits of the number
    pub fn bits(&self) -> (bits: &[bool])
        ensures
            bits@ == self.bits_view(),
            bits_value(bits@) == self.value(),
    {
        self.bits.as_slice()
    }

    /// A number that fits in 128 bits
    pub fn from_u128(value: u128) -> (n: Self)
        ensures
            n.value() == value,
    {
        let mut n = BigNat::zero();
        let mut count: u128 = 0;
        while count < value
            invariant
                count <= value,
                n.value() == count,
            decreases value - count,
        {
            n.increment();
            count = count + 1;
        }
        n
    }

    /// 2^n
    pub fn power_of_two(n: usize) -> (p: Self)
        ensures
            p.value() == pow2(n as nat),
    {
        let mut bits: Vec<bool> = Vec::new();
        let mut i: usize = 0;
        while i < n
            invariant
                i <= n,
                bits@.len() == i,
                forall|k: int| 0 <= k < i ==> !#[trigger] bits@[k],
            decreases n - i,
        {
            bits.push(false);
            i = i + 1;
        }
        let ghost zeros = bits@;
        bits.push(true);
        proof {
            lemma_power_bits(zeros);
        }
        BigNat { bits }
    }

    /// Add one
    pub fn increment(&mut self)
        ensures
            final(self).value() == old(self).value() + 1,
    {
        let ghost start = self.bits@;
        let mut k: usize = 0;
        while k < self.bits.len() && self.bits[k]
            invariant
                k <= self.bits@.len(),
                self.bits@.len() == start.len(),
                forall|j: int| 0 <= j < k ==> start[j],
                forall|j: int| 0 <= j < k ==> !#[trigger] self.bits@[j],
                forall|j: int| k <= j < start.len() ==> #[trigger] self.bits@[j] == start[j],
            decreases start.len() - k,
        {
            self.bits.set(k, false);
            k = k + 1;
        }
        if k < self.bits.len() {
            self.bits.set(k, true);
        } else {
            self.bits.push(true);
        }
        proof {
            lemma_increment_prefix(start, k as int);
            assert(self.bits@ =~= Seq::new(k as nat, |j: int| false) + incremented(start.skip(k as int)));
            lemma_incremented(start);
        }
    }

    /// Bit `i` of the number
    pub fn bit(&self, i: usize) -> (set: bool)
        ensures
            set == nat_bit(self.value(), i as nat),
    {
        proof {
            lemma_bit_of_value(self.bits@, i as nat);
        }
        i < self.bits.len() && self.bits[i]
    }

    /// The number is below 2^n
    pub fn below_power_of_two(&self, n: usize) -> (below: bool)
        ensures
            below == (self.value() < pow2(n as nat)),
    {
        proof {
            lemma_below_power(self.bits@, n as nat);
        }
        if n >= self.bits.len() {
            return true;
        }
        let mut i: usize = n;
        while i < self.bits.len()
            invariant
                n <= i <= self.bits@.len(),
                forall|j: int| n <= j < i ==> !#[trigger] self.bits@[j],
            decreases self.bits@.len() - i,
        {
            if self.bits[i] {
                proof {
                    lemma_below_power(self.bits@, n as nat);
                }
                return false;
            }
            i = i + 1;
        }
        true
    }

    /// A copy of the number
    pub fn copy(&self) -> (n: Self)
        ensures
            n.value() == self.value(),
            n.bits_view() == self.bits_view(),
    {
        let mut bits: Vec<bool> = Vec::new();
        let mut i: usize = 0;
        while i < self.bits.len()
            invariant
                i <= self.bits@.len(),
                bits@ == self.bits@.take(i as int),
            decreases self.bits@.len() - i,
        {
            bits.push(self.bits[i]);
            i = i + 1;
            assert(bits@ =~= self.bits@.take(i as int));
        }
        assert(self.bits@.take(self.bits@.len() as int) =~= self.bits@);
        BigNat { bits }
    }

    /// The difference of two numbers, the larger first
    pub fn difference(&self, smaller: &BigNat) -> (difference: Self)
        requires
            smaller.value() <= self.value(),
        ensures
            difference.value() == self.value() - smaller.value(),
    {
        BigNat { bits: biguint_difference(&self.bits, &smaller.bits) }
    }

    /// Decimal digits of the number, most significant first, with no leading
    /// zero
    pub fn to_decimal(&self) -> (text: String)
        ensures
            text@ == decimal(self.value()),
    {
        biguint_decimal(&self.bits)
    }

    /// The number written in decimal digits
    pub fn parse_decimal(text: &str) -> (number: Option<Self>)
        ensures
            (exists|n: nat| text@ == decimal(n)) ==> number is Some,
            number matches Some(parsed) ==> forall|n: nat| text@ == decimal(n) ==> parsed.value() == n,
    {
        match biguint_parse_decimal(text) {
            Some(bits) => Some(BigNat { bits }),
            None => None,
        }
    }
}

/// Calls `num_bigint::BigUint`'s subtraction on the numbers that
/// `from_radix_le` (radix 2) builds from the bits, and gives back the bits of
/// `to_radix_le(2)`: the difference, which the crate computes exactly.
#[verifier::external_body]
fn biguint_difference(larger: &Vec<bool>, smaller: &Vec<bool>) -> (difference: Vec<bool>)
    requires
        bits_value(smaller@) <= bits_value(larger@),
    ensures
        bits_value(difference@) == bits_value(larger@) - bits_value(smaller@),
{
    let larger_digits: Vec<u8> = larger.iter().map(|bit| u8::from(*bit)).collect();
    let smaller_digits: Vec<u8> = smaller.iter().map(|bit| u8::from(*bit)).collect();
    let larger = num_bigint::BigUint::from_radix_le(&larger_digits, 2).unwrap_or_default();
    let smaller = num_bigint::BigUint::from_radix_le(&smaller_digits, 2).unwrap_or_default();
    (larger - smaller).to_radix_le(2).into_iter().map(|digit| digit == 1).collect()
}

/// Calls `num_bigint::BigUint::from_radix_le` with radix 2 on the bits and
/// `to_str_radix(10)`, which writes the value's decimal digits, most
/// significant first, with no leading zero.
#[verifier::external_body]
fn biguint_decimal(bits: &Vec<bool>) -> (text: String)
    ensures
        text@ == decimal(bits_value(bits@)),
{
    let digits: Vec<u8> = bits.iter().map(|bit| u8::from(*bit)).collect();
    match num_bigint::BigUint::from_radix_le(&digits, 2) {
        Some(number) => number.to_str_radix(10),
        None => String::new(),
    }
}

/// Calls `num_bigint::BigUint::parse_bytes` with radix 10 and gives back the
/// bits of `to_radix_le(2)`. It accepts the decimal text of every number and
/// gives back that number; of other texts (leading zeros, signs,
/// underscores, which the crate also reads) nothing is claimed.
#[verifier::external_body]
fn biguint_parse_decimal(text: &str) -> (bits: Option<Vec<bool>>)
    ensures
        (exists|n: nat| text@ == decimal(n)) ==> bits is Some,
        bits matches Some(parsed) ==> forall|n: nat| text@ == decimal(n) ==> bits_value(parsed@) == n,
{
    match num_bigint::BigUint::parse_bytes(text.as_bytes(), 10) {
        Some(number) => Some(number.to_radix_le(2).into_iter().map(|digit| digit == 1).collect()),
        None => None,
    }
}

proof fn lemma_power_bits(zeros: Seq<bool>)
    requires
        forall|k: int| 0 <= k < zeros.len() ==> !#[trigger] zeros[k],
    ensures
        bits_value(zeros.push(true)) == pow2(zeros.len()),
    decreases zeros.len(),
{
    let all = zeros.push(true);
    if zeros.len() == 0 {
        assert(all.drop_first() =~= Seq::<bool>::empty());
        assert(all[0]);
        assert(bits_value(all) == 1 + 2 * bits_value(all.drop_first()));
        assert(pow2(0) == 1) by {
            vstd::arithmetic::power2::lemma2_to64();
        }
    } else {
        let rest = zeros.drop_first();
        assert(zeros.push(true).drop_first() =~= rest.push(true));
        assert forall|k: int| 0 <= k < rest.len() implies !#[trigger] rest[k] by {
            assert(rest[k] == zeros[k + 1]);
        }
        lemma_power_bits(rest);
        assert(!all[0]);
        assert(bits_value(all) == 2 * bits_value(all.drop_first()));
        vstd::arithmetic::power2::lemma_pow2_unfold(zeros.len());
    }
}

proof fn lemma_increment_prefix(start: Seq<bool>, k: int)
    requires
        0 <= k <= start.len(),
        forall|j: int| 0 <= j < k ==> start[j],
        k < start.len() ==> !start[k],
    ensures
        incremented(start) == Seq::new(k as nat, |j: int| false) + incremented(start.skip(k)),
    decreases k,
{
    if k == 0 {
        assert(start.skip(0) =~= start);
        assert(Seq::new(0, |j: int| false) + incremented(start) =~= incremented(start));
    } else {
        let rest = start.drop_first();
        assert forall|j: int| 0 <= j < k - 1 implies rest[j] by {
            assert(rest[j] == start[j + 1]);
        }
        lemma_increment_prefix(rest, k - 1);
        assert(rest.skip(k - 1) =~= start.skip(k));
        assert(seq![false] + (Seq::new((k - 1) as nat, |j: int| false) + incremented(start.skip(k)))
            =~= Seq::new(k as nat, |j: int| false) + incremented(start.skip(k)));
    }
}

} // verus!
