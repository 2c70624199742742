//! Exact counting, ranking, and unranking of arrangements and subsets

use vstd::prelude::*;

use crate::error::RecoverError;

verus! {

pub open spec fn spec_factorial(n: nat) -> nat
    decreases n,
{
    if n == 0 {
        1
    } else {
        n * spec_factorial((n - 1) as nat)
    }
}

pub proof fn lemma_factorial_positive(n: nat)
    ensures
        spec_factorial(n) >= 1,
    decreases n,
{
    if n > 0 {
        lemma_factorial_positive((n - 1) as nat);
        assert(n * spec_factorial((n - 1) as nat) >= spec_factorial((n - 1) as nat)) by (nonlinear_arith)
            requires
                n >= 1,
                spec_factorial((n - 1) as nat) >= 1,
        ;
    }
}

pub proof fn lemma_factorial_monotone(a: nat, b: nat)
    requires
        a <= b,
    ensures
        spec_factorial(a) <= spec_factorial(b),
    decreases b - a,
{
    if a < b {
        lemma_factorial_monotone(a, (b - 1) as nat);
        lemma_factorial_positive((b - 1) as nat);
        assert(b * spec_factorial((b - 1) as nat) >= spec_factorial((b - 1) as nat)) by (nonlinear_arith)
            requires
                b >= 1,
        ;
    }
}

/// `n!`, failing when it exceeds `u128`
pub fn factorial(value: usize) -> (result: Result<u128, RecoverError>)
    ensures
        match result {
            Ok(product) => product == spec_factorial(value as nat),
            Err(error) => error == RecoverError::CountOverflow && spec_factorial(value as nat) > u128::MAX,
        },
{
    let mut product: u128 = 1;
    let mut factor: u128 = 2;
    proof {
        assert(spec_factorial(0) == 1);
        assert(spec_factorial(1) == 1 * spec_factorial(0));
    }
    while factor <= value as u128
        invariant
            2 <= factor,
            factor <= value + 1 || value < 2,
            value < 2 ==> factor == 2,
            product == spec_factorial((factor - 1) as nat),
        decreases value + 1 - factor,
    {
        proof {
            assert(spec_factorial(factor as nat) == factor * spec_factorial((factor - 1) as nat));
        }
        match product.checked_mul(factor) {
            Some(next) => {
                proof {
                    assert(product * factor == factor * product) by (nonlinear_arith);
                }
                product = next;
            },
            None => {
                proof {
                    assert(product * factor == factor * product) by (nonlinear_arith);
                    lemma_factorial_monotone(factor as nat, value as nat);
                }
                return Err(RecoverError::CountOverflow);
            },
        }
        factor = factor + 1;
    }
    proof {
        if value < 2 {
            assert(spec_factorial(0) == 1);
            assert(spec_factorial(1) == 1 * spec_factorial(0));
            assert(factor == 2);
        } else {
            assert(factor == value + 1);
        }
    }
    Ok(product)
}

/// Binomial coefficient by the product formula `prod_{i<k} (n - i) / (i + 1)`,
/// evaluated left to right so that every intermediate quotient is exact
pub open spec fn spec_binomial(n: nat, k: nat) -> nat
    decreases k,
{
    if k == 0 {
        1
    } else {
        spec_binomial(n, (k - 1) as nat) * ((n - (k - 1)) as nat) / k
    }
}

/// Whether every intermediate product of the left-to-right evaluation fits in `u128`
pub open spec fn binomial_fits(n: nat, k: nat) -> bool
    decreases k,
{
    if k == 0 {
        true
    } else {
        binomial_fits(n, (k - 1) as nat) && spec_binomial(n, (k - 1) as nat) * ((n - (k - 1)) as nat)
            <= u128::MAX
    }
}

pub open spec fn min_nat(a: nat, b: nat) -> nat {
    if a <= b {
        a
    } else {
        b
    }
}

/// `C(n, k)` evaluated over the smaller of `k` and `n - k`
pub fn binomial(n: usize, k: usize) -> (result: Result<u128, RecoverError>)
    requires
        k <= n,
    ensures
        match result {
            Ok(value) => value == spec_binomial(n as nat, min_nat(k as nat, (n - k) as nat))
                && binomial_fits(n as nat, min_nat(k as nat, (n - k) as nat)),
            Err(error) => error == RecoverError::CountOverflow
                && !binomial_fits(n as nat, min_nat(k as nat, (n - k) as nat)),
        },
        result matches Ok(value) ==> value == pascal(n as nat, k as nat),
        k * pascal(n as nat, k as nat) <= u128::MAX ==> result is Ok,
{
    let m = if k <= n - k {
        k
    } else {
        n - k
    };
    proof {
        lemma_binomial_is_pascal(n as nat, m as nat);
        lemma_pascal_symmetric(n as nat, k as nat);
        assert(pascal(n as nat, m as nat) == pascal(n as nat, k as nat));
        if k * pascal(n as nat, k as nat) <= u128::MAX {
            let c = pascal(n as nat, k as nat);
            assert(m * c <= k * c) by (nonlinear_arith)
                requires
                    m <= k,
            ;
            lemma_binomial_fits_bound(n as nat, m as nat);
        }
    }
    let mut value: u128 = 1;
    let mut index: usize = 0;
    while index < m
        invariant
            m <= n,
            k <= n,
            m as nat == min_nat(k as nat, (n - k) as nat),
            index <= m,
            value == spec_binomial(n as nat, index as nat),
            binomial_fits(n as nat, index as nat),
            k * pascal(n as nat, k as nat) <= u128::MAX ==> binomial_fits(n as nat, m as nat),
            spec_binomial(n as nat, m as nat) == pascal(n as nat, k as nat),
        decreases m - index,
    {
        proof {
            assert(spec_binomial(n as nat, (index + 1) as nat) == spec_binomial(n as nat, index as nat)
                * ((n - index) as nat) / ((index + 1) as nat));
        }
        match value.checked_mul((n - index) as u128) {
            Some(product) => {
                value = product / (index + 1) as u128;
            },
            None => {
                proof {
                    assert(value * ((n - index) as nat) > u128::MAX);
                    assert(((index + 1) - 1) as nat == index as nat);
                    assert(!binomial_fits(n as nat, (index + 1) as nat));
                    lemma_binomial_fits_prefix(n as nat, (index + 1) as nat, m as nat);
                }
                return Err(RecoverError::CountOverflow);
            },
        }
        index = index + 1;
    }
    Ok(value)
}

proof fn lemma_binomial_fits_prefix(n: nat, a: nat, b: nat)
    requires
        a <= b,
        !binomial_fits(n, a),
    ensures
        !binomial_fits(n, b),
    decreases b - a,
{
    if a < b {
        lemma_binomial_fits_prefix(n, a, (b - 1) as nat);
    }
}


/// Binomial coefficients by Pascal's rule: the number of `k`-subsets of `n`
/// elements
pub open spec fn pascal(n: nat, k: nat) -> nat
    decreases n,
{
    if k == 0 {
        1
    } else if n == 0 {
        0
    } else {
        pascal((n - 1) as nat, (k - 1) as nat) + pascal((n - 1) as nat, k)
    }
}

/// No subset has more elements than the set
pub proof fn lemma_pascal_above(n: nat, k: nat)
    requires
        k > n,
    ensures
        pascal(n, k) == 0,
    decreases n,
{
    if n > 0 {
        lemma_pascal_above((n - 1) as nat, (k - 1) as nat);
        lemma_pascal_above((n - 1) as nat, k);
    }
}

/// `C(n, k) * k! * (n - k)! == n!`
pub proof fn lemma_pascal_factorial(n: nat, k: nat)
    requires
        k <= n,
    ensures
        pascal(n, k) * (spec_factorial(k) * spec_factorial((n - k) as nat)) == spec_factorial(n),
    decreases n,
{
    if k == 0 {
        assert(spec_factorial(0) == 1);
        assert(spec_factorial(n) == 1 * spec_factorial(n));
        assert(1 * (1 * spec_factorial(n)) == spec_factorial(n));
    } else if k == n {
        lemma_pascal_factorial((n - 1) as nat, (n - 1) as nat);
        lemma_pascal_above((n - 1) as nat, n);
        assert(spec_factorial(0) == 1);
        let f = spec_factorial((n - 1) as nat);
        lemma_factorial_positive((n - 1) as nat);
        assert(pascal((n - 1) as nat, (n - 1) as nat) * (f * 1) == f);
        assert(pascal((n - 1) as nat, (n - 1) as nat) == 1) by (nonlinear_arith)
            requires
                pascal((n - 1) as nat, (n - 1) as nat) * (f * 1) == f,
                f >= 1,
        ;
        assert(pascal(n, k) == 1);
        assert(pascal(n, k) * (spec_factorial(k) * spec_factorial((n - k) as nat)) == spec_factorial(n));
    } else {
        let a = pascal((n - 1) as nat, (k - 1) as nat);
        let b = pascal((n - 1) as nat, k);
        lemma_pascal_factorial((n - 1) as nat, (k - 1) as nat);
        lemma_pascal_factorial((n - 1) as nat, k);
        let fk1 = spec_factorial((k - 1) as nat);
        let fnk1 = spec_factorial((n - k - 1) as nat);
        let fn1 = spec_factorial((n - 1) as nat);
        assert(spec_factorial(k) == k * fk1);
        assert(spec_factorial((n - k) as nat) == (n - k) * fnk1);
        assert(spec_factorial(n) == n * fn1);
        assert(((n - 1) - (k - 1)) as nat == (n - k) as nat);
        assert(a * (fk1 * ((n - k) * fnk1)) == fn1);
        assert(b * ((k * fk1) * fnk1) == fn1);
        assert((a + b) * ((k * fk1) * ((n - k) * fnk1)) == n * fn1) by (nonlinear_arith)
            requires
                a * (fk1 * ((n - k) * fnk1)) == fn1,
                b * ((k * fk1) * fnk1) == fn1,
                0 < k < n,
        ;
    }
}

/// Cancel a positive factor
proof fn lemma_cancel(x: nat, y: nat, d: nat)
    requires
        d > 0,
        x * d == y * d,
    ensures
        x == y,
{
    if x < y {
        assert(x * d < y * d) by (nonlinear_arith)
            requires
                x < y,
                d > 0,
        ;
    }
    if x > y {
        assert(x * d > y * d) by (nonlinear_arith)
            requires
                x > y,
                d > 0,
        ;
    }
}

/// One step of the product formula: `C(n, k - 1) * (n - k + 1) == k * C(n, k)`
pub proof fn lemma_pascal_step(n: nat, k: nat)
    requires
        1 <= k <= n,
    ensures
        pascal(n, (k - 1) as nat) * ((n - (k - 1)) as nat) == k * pascal(n, k),
{
    let p1 = pascal(n, (k - 1) as nat);
    let p2 = pascal(n, k);
    lemma_pascal_factorial(n, (k - 1) as nat);
    lemma_pascal_factorial(n, k);
    let fk1 = spec_factorial((k - 1) as nat);
    let fnk = spec_factorial((n - k) as nat);
    lemma_factorial_positive((k - 1) as nat);
    lemma_factorial_positive((n - k) as nat);
    assert(spec_factorial(k) == k * fk1);
    assert(spec_factorial((n - (k - 1)) as nat) == (n - k + 1) * fnk);
    let d = fk1 * fnk;
    assert(d > 0) by (nonlinear_arith)
        requires
            fk1 >= 1,
            fnk >= 1,
            d == fk1 * fnk,
    ;
    assert((p1 * ((n - (k - 1)) as nat)) * d == (k * p2) * d) by (nonlinear_arith)
        requires
            p1 * (fk1 * ((n - k + 1) * fnk)) == spec_factorial(n),
            p2 * ((k * fk1) * fnk) == spec_factorial(n),
            d == fk1 * fnk,
            (n - (k - 1)) as nat == n - k + 1,
    ;
    lemma_cancel(p1 * ((n - (k - 1)) as nat), k * p2, d);
}

/// The product formula evaluates to Pascal's coefficient
pub proof fn lemma_binomial_is_pascal(n: nat, k: nat)
    requires
        k <= n,
    ensures
        spec_binomial(n, k) == pascal(n, k),
    decreases k,
{
    if k > 0 {
        lemma_binomial_is_pascal(n, (k - 1) as nat);
        lemma_pascal_step(n, k);
        let x = pascal(n, k);
        assert((k * x) / k == x) by (nonlinear_arith)
            requires
                k >= 1,
        ;
    }
}

/// `C(n, k) == C(n, n - k)`
pub proof fn lemma_pascal_symmetric(n: nat, k: nat)
    requires
        k <= n,
    ensures
        pascal(n, k) == pascal(n, (n - k) as nat),
{
    lemma_pascal_factorial(n, k);
    lemma_pascal_factorial(n, (n - k) as nat);
    assert((n - (n - k)) as nat == k);
    let d = spec_factorial(k) * spec_factorial((n - k) as nat);
    lemma_factorial_positive(k);
    lemma_factorial_positive((n - k) as nat);
    assert(d > 0) by (nonlinear_arith)
        requires
            spec_factorial(k) >= 1,
            spec_factorial((n - k) as nat) >= 1,
            d == spec_factorial(k) * spec_factorial((n - k) as nat),
    ;
    assert(pascal(n, (n - k) as nat) * d == pascal(n, (n - k) as nat) * (spec_factorial((n - k) as nat)
        * spec_factorial(k))) by (nonlinear_arith)
        requires
            d == spec_factorial(k) * spec_factorial((n - k) as nat),
    ;
    lemma_cancel(pascal(n, k), pascal(n, (n - k) as nat), d);
}

/// In the lower half the coefficients grow: `C(n, k) <= C(n, k + 1)` when `2k + 1 <= n`
pub proof fn lemma_pascal_grows(n: nat, k: nat)
    requires
        2 * k + 1 <= n,
    ensures
        pascal(n, k) <= pascal(n, k + 1),
{
    lemma_pascal_step(n, k + 1);
    let p = pascal(n, k);
    let q = pascal(n, k + 1);
    assert(p * ((n - k) as nat) == (k + 1) * q);
    assert(p <= q) by (nonlinear_arith)
        requires
            p * ((n - k) as nat) == (k + 1) * q,
            (n - k) as nat >= k + 1,
    ;
}

/// The left-to-right evaluation of `C(n, m)` stays in `u128` when `m * C(n, m)` does
pub proof fn lemma_binomial_fits_bound(n: nat, m: nat)
    requires
        2 * m <= n,
        m * pascal(n, m) <= u128::MAX,
    ensures
        binomial_fits(n, m),
    decreases m,
{
    if m > 0 {
        let prev = (m - 1) as nat;
        lemma_pascal_grows(n, prev);
        let p = pascal(n, prev);
        let q = pascal(n, m);
        assert(prev * p <= m * q) by (nonlinear_arith)
            requires
                p <= q,
                prev <= m,
        ;
        lemma_binomial_fits_bound(n, prev);
        lemma_binomial_is_pascal(n, prev);
        lemma_pascal_step(n, m);
    }
}

// ---------------------------------------------------------------------------
// Arrangements of a multiset described by the multiplicity of each symbol
// ---------------------------------------------------------------------------

pub open spec fn count_sum(counts: Seq<usize>) -> nat
    decreases counts.len(),
{
    if counts.len() == 0 {
        0
    } else {
        count_sum(counts.drop_last()) + counts.last() as nat
    }
}

pub open spec fn factorial_product(counts: Seq<usize>) -> nat
    decreases counts.len(),
{
    if counts.len() == 0 {
        1
    } else {
        factorial_product(counts.drop_last()) * spec_factorial(counts.last() as nat)
    }
}

/// Changing one count changes the sum by the difference
pub proof fn lemma_count_sum_update(counts: Seq<usize>, j: int, v: usize)
    requires
        0 <= j < counts.len(),
    ensures
        count_sum(counts.update(j, v)) + counts[j] == count_sum(counts) + v,
    decreases counts.len(),
{
    let u = counts.update(j, v);
    if j == counts.len() - 1 {
        assert(u.drop_last() =~= counts.drop_last());
    } else {
        lemma_count_sum_update(counts.drop_last(), j, v);
        assert(u.drop_last() =~= counts.drop_last().update(j, v));
    }
}

/// Inserting a count adds it to the sum
pub proof fn lemma_count_sum_insert(counts: Seq<usize>, p: int, v: usize)
    requires
        0 <= p <= counts.len(),
    ensures
        count_sum(counts.insert(p, v)) == count_sum(counts) + v,
    decreases counts.len(),
{
    let u = counts.insert(p, v);
    if p == counts.len() {
        assert(u.drop_last() =~= counts);
    } else {
        lemma_count_sum_insert(counts.drop_last(), p, v);
        assert(u.drop_last() =~= counts.drop_last().insert(p, v));
    }
}

/// `a! * b! <= (a + b)!`
proof fn lemma_factorial_pair(a: nat, b: nat)
    ensures
        spec_factorial(a) * spec_factorial(b) <= spec_factorial(a + b),
    decreases b,
{
    lemma_factorial_positive(a);
    if b > 0 {
        lemma_factorial_pair(a, (b - 1) as nat);
        lemma_factorial_positive((b - 1) as nat);
        let fa = spec_factorial(a);
        let fb1 = spec_factorial((b - 1) as nat);
        let f1 = spec_factorial((a + b - 1) as nat);
        assert(spec_factorial(b) == b * fb1);
        assert(spec_factorial(a + b) == (a + b) * f1);
        assert(fa * (b * fb1) <= (a + b) * f1) by (nonlinear_arith)
            requires
                fa * fb1 <= f1,
                b <= a + b,
                fa >= 1,
                fb1 >= 1,
        ;
    } else {
        assert(spec_factorial(0) == 1);
    }
}

/// The product of the factorials of the counts is at most the factorial of
/// their sum
pub proof fn lemma_factorial_product_bound(counts: Seq<usize>)
    ensures
        factorial_product(counts) <= spec_factorial(count_sum(counts)),
    decreases counts.len(),
{
    if counts.len() == 0 {
        assert(spec_factorial(0) == 1);
    } else {
        let rest = counts.drop_last();
        lemma_factorial_product_bound(rest);
        lemma_factorial_pair(count_sum(rest), counts.last() as nat);
        lemma_factorial_positive(counts.last() as nat);
        let a = factorial_product(rest);
        let b = spec_factorial(count_sum(rest));
        let c = spec_factorial(counts.last() as nat);
        assert(a * c <= b * c) by (nonlinear_arith)
            requires
                a <= b,
                c >= 1,
        ;
    }
}

/// Number of distinct arrangements of a multiset: `n! / prod(c_i!)`
pub open spec fn arrangements(counts: Seq<usize>) -> nat {
    spec_factorial(count_sum(counts)) / factorial_product(counts)
}

pub open spec fn decrement(counts: Seq<usize>, symbol: int) -> Seq<usize> {
    counts.update(symbol, (counts[symbol] - 1) as usize)
}

/// `p` removes symbols one at a time without taking a symbol that is exhausted
pub open spec fn valid_prefix(counts: Seq<usize>, p: Seq<usize>) -> bool
    decreases p.len(),
{
    if p.len() == 0 {
        true
    } else {
        p[0] < counts.len() && counts[p[0] as int] > 0 && valid_prefix(
            decrement(counts, p[0] as int),
            p.drop_first(),
        )
    }
}

/// Multiplicities left after removing the symbols of `p`
pub open spec fn remaining_after(counts: Seq<usize>, p: Seq<usize>) -> Seq<usize>
    decreases p.len(),
{
    if p.len() == 0 {
        counts
    } else {
        remaining_after(decrement(counts, p[0] as int), p.drop_first())
    }
}

/// `p` lists every element of the multiset exactly once
pub open spec fn is_arrangement(counts: Seq<usize>, p: Seq<usize>) -> bool {
    valid_prefix(counts, p) && p.len() == count_sum(counts)
}

/// Arrangements that start with a symbol smaller than `symbol`
pub open spec fn smaller_first_blocks(counts: Seq<usize>, symbol: int) -> nat
    decreases symbol,
{
    if symbol <= 0 {
        0
    } else {
        smaller_first_blocks(counts, symbol - 1) + if counts[symbol - 1] > 0 {
            arrangements(decrement(counts, symbol - 1))
        } else {
            0
        }
    }
}

/// Lexicographic rank of `p` among all arrangements of the multiset
pub open spec fn lex_rank(counts: Seq<usize>, p: Seq<usize>) -> nat
    decreases p.len(),
{
    if p.len() == 0 {
        0
    } else {
        smaller_first_blocks(counts, p[0] as int) + lex_rank(decrement(counts, p[0] as int), p.drop_first())
    }
}

pub proof fn lemma_prefix_push(counts: Seq<usize>, p: Seq<usize>, symbol: usize)
    requires
        valid_prefix(counts, p),
    ensures
        remaining_after(counts, p.push(symbol)) == decrement(remaining_after(counts, p), symbol as int),
        valid_prefix(counts, p.push(symbol)) == (symbol < remaining_after(counts, p).len()
            && remaining_after(counts, p)[symbol as int] > 0),
        lex_rank(counts, p.push(symbol)) == lex_rank(counts, p) + smaller_first_blocks(
            remaining_after(counts, p),
            symbol as int,
        ),
        remaining_after(counts, p).len() == counts.len(),
    decreases p.len(),
{
    let q = p.push(symbol);
    if p.len() == 0 {
        assert(q.drop_first() =~= Seq::<usize>::empty());
        assert(q[0] == symbol);
        let d = decrement(counts, symbol as int);
        assert(remaining_after(d, Seq::<usize>::empty()) == d);
        assert(valid_prefix(d, Seq::<usize>::empty()));
        assert(lex_rank(d, Seq::<usize>::empty()) == 0);
        assert(remaining_after(counts, p) == counts);
        assert(lex_rank(counts, p) == 0);
    } else {
        assert(q.drop_first() =~= p.drop_first().push(symbol));
        assert(q[0] == p[0]);
        lemma_prefix_push(decrement(counts, p[0] as int), p.drop_first(), symbol);
    }
}

pub proof fn lemma_count_sum_decrement(counts: Seq<usize>, symbol: int)
    requires
        0 <= symbol < counts.len(),
        counts[symbol] > 0,
    ensures
        count_sum(decrement(counts, symbol)) + 1 == count_sum(counts),
    decreases counts.len(),
{
    let d = decrement(counts, symbol);
    if symbol == counts.len() - 1 {
        assert(d.drop_last() =~= counts.drop_last());
    } else {
        assert(d.drop_last() =~= decrement(counts.drop_last(), symbol));
        lemma_count_sum_decrement(counts.drop_last(), symbol);
    }
}

pub proof fn lemma_zero_counts(counts: Seq<usize>)
    requires
        count_sum(counts) == 0,
    ensures
        arrangements(counts) == 1,
        forall|i: int| 0 <= i < counts.len() ==> counts[i] == 0,
    decreases counts.len(),
{
    if counts.len() > 0 {
        lemma_zero_counts(counts.drop_last());
        assert forall|i: int| 0 <= i < counts.len() implies counts[i] == 0 by {
            if i < counts.len() - 1 {
                assert(counts.drop_last()[i] == counts[i]);
            }
        }
    }
    lemma_factorial_product_ones(counts);
    assert(spec_factorial(0) == 1);
    assert(arrangements(counts) == spec_factorial(0) / factorial_product(counts));
}

/// Taking one copy of a symbol divides the factorial product by its count
proof fn lemma_factorial_product_decrement(counts: Seq<usize>, t: int)
    requires
        0 <= t < counts.len(),
        counts[t] >= 1,
    ensures
        factorial_product(decrement(counts, t)) * counts[t] == factorial_product(counts),
    decreases counts.len(),
{
    let d = decrement(counts, t);
    let rest = counts.drop_last();
    let last = (counts.len() - 1) as int;
    if t == last {
        assert(d.drop_last() =~= rest);
        let a = factorial_product(rest);
        let c = counts[t] as nat;
        let f1 = spec_factorial((c - 1) as nat);
        assert(spec_factorial(c) == c * f1);
        assert(d.last() == (c - 1) as usize);
        assert(factorial_product(d) == a * f1);
        assert(a * f1 * c == a * (c * f1)) by (nonlinear_arith);
    } else {
        assert(d.drop_last() =~= decrement(rest, t));
        lemma_factorial_product_decrement(rest, t);
        let a = factorial_product(decrement(rest, t));
        let g = spec_factorial(counts.last() as nat);
        let c = counts[t] as nat;
        assert(d.last() == counts.last());
        assert(factorial_product(d) == a * g);
        assert(factorial_product(counts) == factorial_product(rest) * g);
        assert(a * g * c == (a * c) * g) by (nonlinear_arith);
    }
}

/// The blocks of the first `k` symbols, times the factorial product, are
/// `(n - 1)!` times the number of copies of those symbols
proof fn lemma_blocks_times_product(counts: Seq<usize>, k: int)
    requires
        count_sum(counts) >= 1,
        0 <= k <= counts.len(),
        forall|t: int|
            0 <= t < counts.len() && counts[t] > 0 ==> arrangements(#[trigger] decrement(counts, t)) * factorial_product(
                decrement(counts, t),
            ) == spec_factorial((count_sum(counts) - 1) as nat),
    ensures
        smaller_first_blocks(counts, k) * factorial_product(counts) == spec_factorial((count_sum(counts) - 1) as nat)
            * count_sum(counts.take(k)),
    decreases k,
{
    let f = factorial_product(counts);
    let g = spec_factorial((count_sum(counts) - 1) as nat);
    if k == 0 {
        assert(counts.take(0) =~= Seq::<usize>::empty());
        assert(0 * f == g * 0) by (nonlinear_arith);
    } else {
        lemma_blocks_times_product(counts, k - 1);
        assert(counts.take(k).drop_last() =~= counts.take(k - 1));
        let before = smaller_first_blocks(counts, k - 1);
        let s = count_sum(counts.take(k - 1));
        let c = counts[k - 1] as nat;
        if c > 0 {
            let d = decrement(counts, k - 1);
            lemma_factorial_product_decrement(counts, k - 1);
            let a = arrangements(d);
            let fd = factorial_product(d);
            assert(a * fd == g);
            assert(fd * c == f);
            assert((before + a) * f == g * (s + c)) by (nonlinear_arith)
                requires
                    before * f == g * s,
                    a * fd == g,
                    fd * c == f,
            ;
        } else {
            assert((before + 0) * f == g * (s + c)) by (nonlinear_arith)
                requires
                    before * f == g * s,
                    c == 0,
            ;
        }
    }
}

/// The factorial product divides the factorial of the total, and the
/// arrangements are the sum of the arrangements that start with each symbol
pub proof fn lemma_arrangements_exact(counts: Seq<usize>)
    ensures
        arrangements(counts) * factorial_product(counts) == spec_factorial(count_sum(counts)),
        count_sum(counts) >= 1 ==> smaller_first_blocks(counts, counts.len() as int) == arrangements(counts),
    decreases count_sum(counts),
{
    let n = count_sum(counts);
    lemma_factorial_product_positive(counts);
    if n == 0 {
        lemma_zero_counts(counts);
        lemma_factorial_product_ones(counts);
        assert(spec_factorial(0) == 1);
    } else {
        assert forall|t: int| 0 <= t < counts.len() && counts[t] > 0 implies arrangements(
            #[trigger] decrement(counts, t),
        ) * factorial_product(decrement(counts, t)) == spec_factorial((n - 1) as nat) by {
            lemma_count_sum_decrement(counts, t);
            lemma_arrangements_exact(decrement(counts, t));
        }
        lemma_blocks_times_product(counts, counts.len() as int);
        assert(counts.take(counts.len() as int) =~= counts);
        let b = smaller_first_blocks(counts, counts.len() as int);
        let f = factorial_product(counts);
        assert(spec_factorial(n) == n * spec_factorial((n - 1) as nat));
        assert(b * f == spec_factorial(n)) by (nonlinear_arith)
            requires
                b * f == spec_factorial((n - 1) as nat) * n,
                spec_factorial(n) == n * spec_factorial((n - 1) as nat),
        ;
        vstd::arithmetic::div_mod::lemma_div_multiples_vanish(b as int, f as int);
        assert(f * b == b * f) by (nonlinear_arith);
    }
}

/// A prefix's rank plus the arrangements of what it leaves is at most the
/// arrangements of the whole multiset
pub proof fn lemma_prefix_rank_bound(counts: Seq<usize>, p: Seq<usize>)
    requires
        valid_prefix(counts, p),
    ensures
        lex_rank(counts, p) + arrangements(remaining_after(counts, p)) <= arrangements(counts),
    decreases p.len(),
{
    if p.len() > 0 {
        let s = p[0] as int;
        let d = decrement(counts, s);
        lemma_prefix_rank_bound(d, p.drop_first());
        assert(remaining_after(counts, p) == remaining_after(d, p.drop_first()));
        lemma_count_sum_decrement(counts, s);
        lemma_arrangements_exact(counts);
        lemma_blocks_monotone(counts, s + 1, counts.len() as int);
    }
}

/// A prefix of a valid prefix is valid
pub proof fn lemma_valid_prefix_take(counts: Seq<usize>, p: Seq<usize>, k: int)
    requires
        valid_prefix(counts, p),
        0 <= k <= p.len(),
    ensures
        valid_prefix(counts, p.take(k)),
    decreases p.len(),
{
    if k > 0 {
        lemma_valid_prefix_take(decrement(counts, p[0] as int), p.drop_first(), k - 1);
        assert(p.take(k).drop_first() =~= p.drop_first().take(k - 1));
    }
}

/// The arrangements of a multiset are at most the factorial of its size
pub proof fn lemma_arrangements_bound(counts: Seq<usize>)
    ensures
        arrangements(counts) <= spec_factorial(count_sum(counts)),
{
    lemma_arrangements_exact(counts);
    lemma_factorial_product_positive(counts);
    let a = arrangements(counts);
    let f = factorial_product(counts);
    assert(a <= a * f) by (nonlinear_arith)
        requires
            f >= 1,
    ;
}

/// A full arrangement ranks below the number of arrangements
pub proof fn lemma_arrangement_rank_below(counts: Seq<usize>, p: Seq<usize>)
    requires
        is_arrangement(counts, p),
    ensures
        lex_rank(counts, p) < arrangements(counts),
    decreases p.len(),
{
    if p.len() == 0 {
        lemma_zero_counts(counts);
    } else {
        let s = p[0] as int;
        let d = decrement(counts, s);
        lemma_count_sum_decrement(counts, s);
        lemma_arrangement_rank_below(d, p.drop_first());
        lemma_arrangements_exact(counts);
        lemma_blocks_monotone(counts, s + 1, counts.len() as int);
    }
}

/// Ranking is one to one on arrangements: two arrangements of a multiset
/// with the same lexicographic rank are the same arrangement, so ranking
/// inverts unranking and unranking inverts ranking
pub proof fn lemma_lex_rank_injective(counts: Seq<usize>, p: Seq<usize>, q: Seq<usize>)
    requires
        is_arrangement(counts, p),
        is_arrangement(counts, q),
        lex_rank(counts, p) == lex_rank(counts, q),
    ensures
        p == q,
    decreases p.len(),
{
    if p.len() > 0 {
        let s = p[0] as int;
        let t = q[0] as int;
        lemma_count_sum_decrement(counts, s);
        lemma_count_sum_decrement(counts, t);
        if s == t {
            lemma_lex_rank_injective(decrement(counts, s), p.drop_first(), q.drop_first());
            assert(p =~= seq![p[0]] + p.drop_first());
            assert(q =~= seq![q[0]] + q.drop_first());
        } else if s < t {
            lemma_arrangement_rank_below(decrement(counts, s), p.drop_first());
            lemma_blocks_monotone(counts, s + 1, t);
        } else {
            lemma_arrangement_rank_below(decrement(counts, t), q.drop_first());
            lemma_blocks_monotone(counts, t + 1, s);
        }
    } else {
        assert(p =~= q);
    }
}

/// Blocks only grow with the symbol bound
proof fn lemma_blocks_monotone(counts: Seq<usize>, a: int, b: int)
    requires
        0 <= a <= b,
    ensures
        smaller_first_blocks(counts, a) <= smaller_first_blocks(counts, b),
    decreases b - a,
{
    if a < b {
        lemma_blocks_monotone(counts, a, b - 1);
    }
}

proof fn lemma_factorial_product_ones(counts: Seq<usize>)
    requires
        forall|i: int| 0 <= i < counts.len() ==> counts[i] == 0,
    ensures
        factorial_product(counts) == 1,
    decreases counts.len(),
{
    if counts.len() > 0 {
        assert forall|i: int| 0 <= i < counts.drop_last().len() implies counts.drop_last()[i] == 0 by {
            assert(counts.drop_last()[i] == counts[i]);
        }
        lemma_factorial_product_ones(counts.drop_last());
        assert(counts.last() == counts[counts.len() - 1]);
        assert(spec_factorial(0) == 1);
    }
}

pub proof fn lemma_factorial_product_positive(counts: Seq<usize>)
    ensures
        factorial_product(counts) >= 1,
    decreases counts.len(),
{
    if counts.len() > 0 {
        lemma_factorial_product_positive(counts.drop_last());
        lemma_factorial_positive(counts.last() as nat);
        let a = factorial_product(counts.drop_last());
        let b = spec_factorial(counts.last() as nat);
        assert(a * b >= 1) by (nonlinear_arith)
            requires
                a >= 1,
                b >= 1,
        ;
    }
}

proof fn lemma_factorial_product_grows(counts: Seq<usize>, i: int)
    requires
        0 <= i <= counts.len(),
    ensures
        factorial_product(counts.take(i)) <= factorial_product(counts),
    decreases counts.len() - i,
{
    if i < counts.len() {
        lemma_factorial_product_grows(counts, i + 1);
        assert(counts.take(i + 1).drop_last() =~= counts.take(i));
        lemma_factorial_product_positive(counts.take(i));
        lemma_factorial_positive(counts[i] as nat);
        let a = factorial_product(counts.take(i));
        let b = spec_factorial(counts[i] as nat);
        assert(a * b >= a) by (nonlinear_arith)
            requires
                a >= 1,
                b >= 1,
        ;
    } else {
        assert(counts.take(i) =~= counts);
    }
}

proof fn lemma_factorial_divides_product(counts: Seq<usize>, i: int)
    requires
        0 <= i < counts.len(),
    ensures
        spec_factorial(counts[i] as nat) <= factorial_product(counts),
    decreases counts.len(),
{
    lemma_factorial_product_positive(counts.drop_last());
    lemma_factorial_positive(counts.last() as nat);
    if i == counts.len() - 1 {
        let a = factorial_product(counts.drop_last());
        let b = spec_factorial(counts.last() as nat);
        assert(a * b >= b) by (nonlinear_arith)
            requires
                a >= 1,
                b >= 1,
        ;
    } else {
        lemma_factorial_divides_product(counts.drop_last(), i);
        let a = factorial_product(counts.drop_last());
        let b = spec_factorial(counts.last() as nat);
        assert(a * b >= a) by (nonlinear_arith)
            requires
                a >= 1,
                b >= 1,
        ;
    }
}

/// Exact number of distinct arrangements of a multiset
pub fn arrangement_count(counts: &Vec<usize>, total: usize) -> (result: Result<u128, RecoverError>)
    requires
        total == count_sum(counts@),
    ensures
        match result {
            Ok(count) => count == arrangements(counts@),
            Err(error) => error == RecoverError::CountOverflow && (spec_factorial(total as nat) > u128::MAX
                || factorial_product(counts@) > u128::MAX),
        },
        result is Err <==> spec_factorial(total as nat) > u128::MAX,
{
    proof {
        lemma_factorial_product_bound(counts@);
    }
    let mut denominator: u128 = 1;
    let mut i: usize = 0;
    while i < counts.len()
        invariant
            0 <= i <= counts@.len(),
            denominator == factorial_product(counts@.take(i as int)),
            factorial_product(counts@) <= spec_factorial(total as nat),
        decreases counts@.len() - i,
    {
        assert(counts@.take(i + 1).drop_last() =~= counts@.take(i as int));
        let f = match factorial(counts[i]) {
            Ok(f) => f,
            Err(error) => {
                proof {
                    lemma_factorial_divides_product(counts@, i as int);
                }
                return Err(error);
            },
        };
        match denominator.checked_mul(f) {
            Some(next) => denominator = next,
            None => {
                proof {
                    lemma_factorial_product_grows(counts@, i + 1);
                }
                return Err(RecoverError::CountOverflow);
            },
        }
        i = i + 1;
    }
    assert(counts@.take(counts@.len() as int) =~= counts@);
    let numerator = factorial(total)?;
    proof {
        lemma_factorial_product_positive(counts@);
    }
    Ok(numerator / denominator)
}

/// Sum of the multiplicities
pub fn total_count(counts: &Vec<usize>) -> (total: Option<usize>)
    ensures
        match total {
            Some(t) => t == count_sum(counts@),
            None => count_sum(counts@) > usize::MAX,
        },
{
    let mut total: usize = 0;
    let mut i: usize = 0;
    while i < counts.len()
        invariant
            0 <= i <= counts@.len(),
            total == count_sum(counts@.take(i as int)),
        decreases counts@.len() - i,
    {
        assert(counts@.take(i + 1).drop_last() =~= counts@.take(i as int));
        match total.checked_add(counts[i]) {
            Some(next) => total = next,
            None => {
                proof {
                    lemma_count_sum_grows(counts@, i + 1);
                }
                return None;
            },
        }
        i = i + 1;
    }
    assert(counts@.take(counts@.len() as int) =~= counts@);
    Some(total)
}

proof fn lemma_count_sum_grows(counts: Seq<usize>, i: int)
    requires
        0 <= i <= counts.len(),
    ensures
        count_sum(counts.take(i)) <= count_sum(counts),
    decreases counts.len() - i,
{
    if i < counts.len() {
        lemma_count_sum_grows(counts, i + 1);
        assert(counts.take(i + 1).drop_last() =~= counts.take(i));
    } else {
        assert(counts.take(i) =~= counts);
    }
}

/// The arrangement of rank `rank` in lexicographic order
pub fn unrank_arrangement(counts: &Vec<usize>, total: usize, rank: u128) -> (result: Result<
    Vec<usize>,
    RecoverError,
>)
    requires
        total == count_sum(counts@),
        rank < arrangements(counts@),
    ensures
        match result {
            Ok(p) => is_arrangement(counts@, p@) && lex_rank(counts@, p@) == rank,
            Err(error) => error == RecoverError::CountOverflow,
        },
        spec_factorial(total as nat) <= u128::MAX ==> result is Ok,
{
    let mut current = counts.clone();
    let mut output: Vec<usize> = Vec::new();
    let mut remaining_rank = rank;
    let mut position: usize = 0;
    proof {
        assert(current@ =~= counts@);
    }
    while position < total
        invariant
            position <= total,
            total == count_sum(counts@),
            output@.len() == position,
            current@ == remaining_after(counts@, output@),
            current@.len() == counts@.len(),
            valid_prefix(counts@, output@),
            count_sum(current@) + position == total,
            rank == lex_rank(counts@, output@) + remaining_rank,
            remaining_rank < arrangements(current@),
        decreases total - position,
    {
        let ghost start = current@;
        let ghost start_rank = remaining_rank;
        let mut found = false;
        let mut choice: usize = 0;
        let current_total: usize = total - position;
        while choice < current.len()
            invariant_except_break
                !found,
            invariant
                current@ == start,
                start.len() == counts@.len(),
                choice <= start.len(),
                current_total == count_sum(start),
                current_total >= 1,
                start_rank == smaller_first_blocks(start, choice as int) + remaining_rank,
                current_total <= total,
            ensures
                found || choice >= start.len(),
                found ==> choice < start.len() && start[choice as int] > 0 && remaining_rank < arrangements(
                    decrement(start, choice as int),
                ),
                start_rank == smaller_first_blocks(start, choice as int) + remaining_rank,
                current@ == start,
            decreases start.len() - choice,
        {
            if current[choice] > 0 {
                let count = current[choice];
                current.set(choice, count - 1);
                proof {
                    lemma_count_sum_decrement(start, choice as int);
                    assert(current@ == decrement(start, choice as int));
                }
                let block = match arrangement_count(&current, current_total - 1) {
                    Ok(block) => block,
                    Err(error) => {
                        proof {
                            lemma_factorial_monotone((current_total - 1) as nat, total as nat);
                        }
                        return Err(error);
                    },
                };
                current.set(choice, count);
                proof {
                    assert(current@ =~= start);
                }
                if remaining_rank < block {
                    found = true;
                    break;
                }
                remaining_rank = remaining_rank - block;
            }
            choice = choice + 1;
        }
        if !found {
            proof {
                lemma_arrangements_exact(start);
            }
            return Err(RecoverError::CountOverflow);
        }
        let selected = choice;
        let count = current[selected];
        current.set(selected, count - 1);
        proof {
            lemma_prefix_push(counts@, output@, selected);
            lemma_count_sum_decrement(start, selected as int);
        }
        output.push(selected);
        position = position + 1;
    }
    proof {
        lemma_zero_counts(current@);
    }
    Ok(output)
}

/// Lexicographic rank of a sequence of symbols among the arrangements of a
/// multiset; fails when the sequence takes a symbol the multiset lacks
pub fn rank_arrangement(counts: &Vec<usize>, total: usize, p: &Vec<usize>) -> (result: Result<
    u128,
    RecoverError,
>)
    requires
        total == count_sum(counts@),
    ensures
        match result {
            Ok(rank) => valid_prefix(counts@, p@) && rank == lex_rank(counts@, p@),
            Err(error) => error == RecoverError::CountOverflow,
        },
        valid_prefix(counts@, p@) && spec_factorial(total as nat) <= u128::MAX ==> result is Ok,
{
    proof {
        lemma_arrangements_bound(counts@);
    }
    let mut current = counts.clone();
    let mut rank: u128 = 0;
    let mut position: usize = 0;
    proof {
        assert(current@ =~= counts@);
        assert(p@.take(0) =~= Seq::<usize>::empty());
    }
    while position < p.len()
        invariant
            position <= p@.len(),
            total == count_sum(counts@),
            current@ == remaining_after(counts@, p@.take(position as int)),
            current@.len() == counts@.len(),
            valid_prefix(counts@, p@.take(position as int)),
            count_sum(current@) + position == total,
            rank == lex_rank(counts@, p@.take(position as int)),
            arrangements(counts@) <= spec_factorial(total as nat),
        decreases p@.len() - position,
    {
        let selected = p[position];
        proof {
            assert(p@.take(position + 1) =~= p@.take(position as int).push(selected));
            lemma_prefix_push(counts@, p@.take(position as int), selected);
        }
        if selected >= current.len() || current[selected] == 0 {
            proof {
                if valid_prefix(counts@, p@) {
                    lemma_valid_prefix_take(counts@, p@, position + 1);
                }
            }
            return Err(RecoverError::CountOverflow);
        }
        proof {
            lemma_prefix_rank_bound(counts@, p@.take(position + 1));
        }
        proof {
            lemma_count_sum_decrement(current@, selected as int);
        }
        let ghost start = current@;
        let current_total: usize = total - position;
        let mut choice: usize = 0;
        let mut added: u128 = 0;
        while choice < selected
            invariant
                current@ == start,
                selected < start.len(),
                choice <= selected,
                current_total == count_sum(start),
                added == smaller_first_blocks(start, choice as int),
                rank + added <= u128::MAX,
                current_total <= total,
                rank + smaller_first_blocks(start, selected as int) <= spec_factorial(total as nat),
            decreases selected - choice,
        {
            if current[choice] > 0 {
                let count = current[choice];
                current.set(choice, count - 1);
                proof {
                    lemma_count_sum_decrement(start, choice as int);
                }
                let block = match arrangement_count(&current, current_total - 1) {
                    Ok(block) => block,
                    Err(error) => {
                        proof {
                            lemma_factorial_monotone((current_total - 1) as nat, total as nat);
                        }
                        return Err(error);
                    },
                };
                proof {
                    assert(current@ == decrement(start, choice as int));
                    lemma_blocks_monotone(start, choice + 1, selected as int);
                }
                current.set(choice, count);
                proof {
                    assert(current@ =~= start);
                }
                match rank.checked_add(added) {
                    Some(r) => match r.checked_add(block) {
                        Some(_) => {},
                        None => return Err(RecoverError::CountOverflow),
                    },
                    None => return Err(RecoverError::CountOverflow),
                }
                added = added + block;
            }
            choice = choice + 1;
        }
        rank = rank + added;
        let count = current[selected];
        current.set(selected, count - 1);
        proof {
            lemma_count_sum_decrement(start, selected as int);
        }
        position = position + 1;
    }
    proof {
        assert(p@.take(p@.len() as int) =~= p@);
    }
    Ok(rank)
}


// ---------------------------------------------------------------------------
// k-subsets of {0, .., n-1} in lexicographic order of their sorted elements
// ---------------------------------------------------------------------------

/// Subsets of the remaining positions that extend a choice of `candidate`
pub open spec fn combination_block(n: nat, candidate: nat, remaining: nat) -> nat {
    if remaining == 0 {
        1
    } else if n - candidate - 1 < remaining {
        0
    } else {
        spec_binomial(
            (n - candidate - 1) as nat,
            min_nat(remaining, (n - candidate - 1 - remaining) as nat),
        )
    }
}

/// Subsets skipped before position `position` is chosen after `start`
pub open spec fn skipped_blocks(n: nat, start: nat, position: nat, remaining: nat) -> nat
    decreases position - start,
{
    if position <= start {
        0
    } else {
        skipped_blocks(n, start, (position - 1) as nat, remaining) + combination_block(
            n,
            (position - 1) as nat,
            remaining,
        )
    }
}

/// Strictly increasing positions below `n`
pub open spec fn is_combination(n: nat, positions: Seq<usize>) -> bool {
    &&& forall|i: int| 0 <= i < positions.len() ==> positions[i] < n
    &&& forall|i: int, j: int| 0 <= i < j < positions.len() ==> positions[i] < positions[j]
}

/// Rank contribution of the first elements of a `k`-subset whose elements
/// are chosen after `start`: each chosen element skips the subsets that
/// begin with a smaller candidate
pub open spec fn prefix_combination_rank(n: nat, k: nat, start: nat, prefix: Seq<usize>) -> nat
    decreases prefix.len(),
{
    if prefix.len() == 0 || k == 0 {
        0
    } else {
        skipped_blocks(n, start, prefix[0] as nat, (k - 1) as nat) + prefix_combination_rank(
            n,
            (k - 1) as nat,
            (prefix[0] + 1) as nat,
            prefix.drop_first(),
        )
    }
}

/// Lexicographic rank of a sorted subset among all subsets of its size
pub open spec fn combination_rank(n: nat, positions: Seq<usize>) -> nat {
    prefix_combination_rank(n, positions.len(), 0, positions)
}

proof fn lemma_prefix_rank_push(n: nat, k: nat, start: nat, prefix: Seq<usize>, next: usize)
    requires
        prefix.len() < k,
    ensures
        prefix_combination_rank(n, k, start, prefix.push(next)) == prefix_combination_rank(n, k, start, prefix)
            + skipped_blocks(
            n,
            if prefix.len() == 0 {
                start
            } else {
                (prefix.last() + 1) as nat
            },
            next as nat,
            (k - prefix.len() - 1) as nat,
        ),
    decreases prefix.len(),
{
    let q = prefix.push(next);
    if prefix.len() == 0 {
        assert(q.drop_first() =~= Seq::<usize>::empty());
        assert(q[0] == next);
        assert(prefix_combination_rank(n, (k - 1) as nat, (next + 1) as nat, Seq::<usize>::empty()) == 0);
        assert(prefix_combination_rank(n, k, start, prefix) == 0);
    } else {
        assert(q.drop_first() =~= prefix.drop_first().push(next));
        assert(q[0] == prefix[0]);
        lemma_prefix_rank_push(n, (k - 1) as nat, (prefix[0] + 1) as nat, prefix.drop_first(), next);
        if prefix.len() > 1 {
            assert(prefix.drop_first().last() == prefix.last());
        }
    }
}

/// The skipped subsets grow with the chosen position
proof fn lemma_skipped_monotone(n: nat, start: nat, p: nat, q: nat, remaining: nat)
    requires
        p <= q,
    ensures
        skipped_blocks(n, start, p, remaining) <= skipped_blocks(n, start, q, remaining),
    decreases q - p,
{
    if p < q {
        lemma_skipped_monotone(n, start, p, (q - 1) as nat, remaining);
    }
}

/// The rank of a prefix of a subset is at most the rank of the subset
proof fn lemma_prefix_rank_below(n: nat, positions: Seq<usize>, i: nat)
    requires
        i <= positions.len(),
    ensures
        prefix_combination_rank(n, positions.len(), 0, positions.take(i as int)) <= combination_rank(n, positions),
    decreases positions.len() - i,
{
    if i < positions.len() {
        lemma_prefix_rank_below(n, positions, i + 1);
        assert(positions.take((i + 1) as int) =~= positions.take(i as int).push(positions[i as int]));
        lemma_prefix_rank_push(n, positions.len(), 0, positions.take(i as int), positions[i as int]);
    } else {
        assert(positions.take(i as int) =~= positions);
    }
}

/// Rank of a sorted k-subset among all k-subsets in lexicographic order
pub fn rank_combination(n: usize, positions: &Vec<usize>) -> (result: Result<u128, RecoverError>)
    requires
        is_combination(n as nat, positions@),
        positions@.len() <= n,
    ensures
        match result {
            Ok(rank) => rank == combination_rank(n as nat, positions@),
            Err(error) => error == RecoverError::CountOverflow,
        },
        positions@.len() * combination_rank(n as nat, positions@) <= u128::MAX ==> result is Ok,
{
    let mut rank: u128 = 0;
    let mut start: usize = 0;
    let mut selected: usize = 0;
    let k = positions.len();
    let ghost total = combination_rank(n as nat, positions@);
    proof {
        assert(positions@.take(0) =~= Seq::<usize>::empty());
    }
    while selected < k
        invariant
            k == positions@.len(),
            k <= n,
            is_combination(n as nat, positions@),
            selected <= k,
            start <= n,
            selected == 0 ==> start == 0,
            selected > 0 ==> start == positions@[selected - 1] + 1,
            forall|i: int| selected <= i < k ==> start <= positions@[i],
            rank == prefix_combination_rank(n as nat, k as nat, 0, positions@.take(selected as int)),
            total == combination_rank(n as nat, positions@),
        decreases k - selected,
    {
        let position = positions[selected];
        let remaining = k - selected - 1;
        proof {
            assert(positions@.take(selected + 1) =~= positions@.take(selected as int).push(position));
            lemma_prefix_rank_push(n as nat, k as nat, 0, positions@.take(selected as int), position);
            lemma_prefix_rank_below(n as nat, positions@, (selected + 1) as nat);
            if selected > 0 {
                assert(positions@.take(selected as int).last() == positions@[selected - 1]);
            }
            if selected + 1 < k {
                lemma_increasing_gap(positions@, selected as int, (k - 1) as int);
            }
        }
        let mut candidate: usize = start;
        let mut added: u128 = 0;
        while candidate < position
            invariant
                start <= candidate <= position,
                position < n,
                remaining == k - selected - 1,
                added == skipped_blocks(n as nat, start as nat, candidate as nat, remaining as nat),
                rank + added <= u128::MAX,
                remaining < k,
                k == positions@.len(),
                total == combination_rank(n as nat, positions@),
                rank + skipped_blocks(n as nat, start as nat, position as nat, remaining as nat) <= total,
            decreases position - candidate,
        {
            proof {
                lemma_skipped_monotone(n as nat, start as nat, (candidate + 1) as nat, position as nat, remaining as nat);
                let c = combination_block(n as nat, candidate as nat, remaining as nat);
                assert(skipped_blocks(n as nat, start as nat, (candidate + 1) as nat, remaining as nat) == skipped_blocks(
                    n as nat,
                    start as nat,
                    candidate as nat,
                    remaining as nat,
                ) + c);
                assert(c <= total);
                if k * total <= u128::MAX {
                    assert(total <= k * total) by (nonlinear_arith)
                        requires
                            k >= 1,
                    ;
                }
                if remaining > 0 && n - candidate - 1 >= remaining {
                    let a = (n - candidate - 1) as nat;
                    lemma_binomial_is_pascal(a, min_nat(remaining as nat, (a - remaining) as nat));
                    lemma_pascal_symmetric(a, remaining as nat);
                    assert(c == pascal(a, remaining as nat));
                    if k * total <= u128::MAX {
                        assert(remaining * c <= k * total) by (nonlinear_arith)
                            requires
                                remaining < k,
                                c <= total,
                        ;
                    }
                }
            }
            let block: u128 = if remaining == 0 {
                1
            } else if n - candidate - 1 < remaining {
                0
            } else {
                let b = binomial(n - candidate - 1, remaining)?;
                proof {
                    lemma_binomial_is_pascal(
                        (n - candidate - 1) as nat,
                        min_nat(remaining as nat, (n - candidate - 1 - remaining) as nat),
                    );
                }
                b
            };
            match rank.checked_add(added) {
                Some(r) => match r.checked_add(block) {
                    Some(_) => {},
                    None => return Err(RecoverError::CountOverflow),
                },
                None => return Err(RecoverError::CountOverflow),
            }
            added = added + block;
            candidate = candidate + 1;
        }
        rank = rank + added;
        start = position + 1;
        selected = selected + 1;
    }
    proof {
        assert(positions@.take(k as int) =~= positions@);
    }
    Ok(rank)
}

proof fn lemma_increasing_gap(positions: Seq<usize>, i: int, j: int)
    requires
        0 <= i <= j < positions.len(),
        forall|a: int, b: int| 0 <= a < b < positions.len() ==> positions[a] < positions[b],
    ensures
        positions[i] + (j - i) <= positions[j],
    decreases j - i,
{
    if i < j {
        lemma_increasing_gap(positions, i, j - 1);
    }
}


/// A block of skipped subsets counts the subsets of the elements after the candidate
pub proof fn lemma_block_is_pascal(n: nat, candidate: nat, remaining: nat)
    requires
        candidate < n,
    ensures
        combination_block(n, candidate, remaining) == pascal((n - candidate - 1) as nat, remaining),
{
    let a = (n - candidate - 1) as nat;
    if remaining == 0 {
    } else if a < remaining {
        lemma_pascal_above(a, remaining);
    } else {
        lemma_binomial_is_pascal(a, min_nat(remaining, (a - remaining) as nat));
        lemma_pascal_symmetric(a, remaining);
    }
}

/// Hockey-stick identity: the subsets skipped before `position`, and those
/// of the elements from `position` on, are all subsets of the elements from `start` on
pub proof fn lemma_skipped_hockey(n: nat, start: nat, position: nat, remaining: nat)
    requires
        start <= position <= n,
    ensures
        skipped_blocks(n, start, position, remaining) + pascal((n - position) as nat, remaining + 1) == pascal(
            (n - start) as nat,
            remaining + 1,
        ),
    decreases position - start,
{
    if position > start {
        let p = (position - 1) as nat;
        lemma_skipped_hockey(n, start, p, remaining);
        lemma_block_is_pascal(n, p, remaining);
        assert(pascal((n - p) as nat, remaining + 1) == pascal((n - p - 1) as nat, remaining) + pascal(
            (n - p - 1) as nat,
            remaining + 1,
        ));
        assert((n - p - 1) as nat == (n - position) as nat);
    }
}

/// The rank of a subset drawn from the elements from `start` on is below
/// the number of such subsets
pub proof fn lemma_prefix_rank_below_count(n: nat, k: nat, start: nat, prefix: Seq<usize>)
    requires
        prefix.len() == k,
        start <= n,
        forall|i: int| 0 <= i < prefix.len() ==> start <= #[trigger] prefix[i] < n,
        forall|i: int, j: int| 0 <= i < j < prefix.len() ==> prefix[i] < prefix[j],
    ensures
        prefix_combination_rank(n, k, start, prefix) < pascal((n - start) as nat, k),
    decreases prefix.len(),
{
    if k == 0 {
    } else {
        let p0 = prefix[0] as nat;
        let rest = prefix.drop_first();
        assert forall|i: int| 0 <= i < rest.len() implies p0 + 1 <= #[trigger] rest[i] < n by {
            assert(rest[i] == prefix[i + 1]);
        }
        lemma_prefix_rank_below_count(n, (k - 1) as nat, p0 + 1, rest);
        lemma_skipped_hockey(n, start, p0, (k - 1) as nat);
        assert(pascal((n - p0) as nat, k) == pascal((n - p0 - 1) as nat, (k - 1) as nat) + pascal(
            (n - p0 - 1) as nat,
            k,
        ));
        assert((n - (p0 + 1)) as nat == (n - p0 - 1) as nat);
    }
}

/// The lexicographic rank of a `k`-subset of `n` elements is below `C(n, k)`
pub proof fn lemma_combination_rank_below(n: nat, positions: Seq<usize>)
    requires
        is_combination(n, positions),
    ensures
        combination_rank(n, positions) < pascal(n, positions.len()),
{
    lemma_prefix_rank_below_count(n, positions.len(), 0, positions);
}

/// Distinct subsets drawn from the elements from `start` on have distinct ranks
pub proof fn lemma_prefix_rank_injective(n: nat, k: nat, start: nat, a: Seq<usize>, b: Seq<usize>)
    requires
        a.len() == k,
        b.len() == k,
        start <= n,
        forall|i: int| 0 <= i < a.len() ==> start <= #[trigger] a[i] < n,
        forall|i: int| 0 <= i < b.len() ==> start <= #[trigger] b[i] < n,
        forall|i: int, j: int| 0 <= i < j < a.len() ==> a[i] < a[j],
        forall|i: int, j: int| 0 <= i < j < b.len() ==> b[i] < b[j],
        prefix_combination_rank(n, k, start, a) == prefix_combination_rank(n, k, start, b),
    ensures
        a == b,
    decreases k,
{
    if k == 0 {
        assert(a =~= b);
    } else {
        let a0 = a[0] as nat;
        let b0 = b[0] as nat;
        let ra = a.drop_first();
        let rb = b.drop_first();
        assert forall|i: int| 0 <= i < ra.len() implies a0 + 1 <= #[trigger] ra[i] < n by {
            assert(ra[i] == a[i + 1]);
        }
        assert forall|i: int| 0 <= i < rb.len() implies b0 + 1 <= #[trigger] rb[i] < n by {
            assert(rb[i] == b[i + 1]);
        }
        lemma_prefix_rank_below_count(n, (k - 1) as nat, a0 + 1, ra);
        lemma_prefix_rank_below_count(n, (k - 1) as nat, b0 + 1, rb);
        if a0 < b0 {
            lemma_skipped_monotone(n, start, a0 + 1, b0, (k - 1) as nat);
            lemma_block_is_pascal(n, a0, (k - 1) as nat);
            assert((n - (a0 + 1)) as nat == (n - a0 - 1) as nat);
            assert(false);
        }
        if b0 < a0 {
            lemma_skipped_monotone(n, start, b0 + 1, a0, (k - 1) as nat);
            lemma_block_is_pascal(n, b0, (k - 1) as nat);
            assert((n - (b0 + 1)) as nat == (n - b0 - 1) as nat);
            assert(false);
        }
        lemma_prefix_rank_injective(n, (k - 1) as nat, a0 + 1, ra, rb);
        assert(a =~= b) by {
            assert forall|i: int| 0 <= i < a.len() implies a[i] == b[i] by {
                if i > 0 {
                    assert(a[i] == ra[i - 1] && b[i] == rb[i - 1]);
                }
            }
        }
    }
}

/// Subsets of one size with the same lexicographic rank are equal
pub proof fn lemma_combination_rank_injective(n: nat, a: Seq<usize>, b: Seq<usize>)
    requires
        is_combination(n, a),
        is_combination(n, b),
        a.len() == b.len(),
        combination_rank(n, a) == combination_rank(n, b),
    ensures
        a == b,
{
    lemma_prefix_rank_injective(n, a.len(), 0, a, b);
}

/// `C(m, r) <= C(m + 1, r)`
pub proof fn lemma_pascal_top_grows(m: nat, r: nat)
    ensures
        pascal(m, r) <= pascal(m + 1, r),
{
    if r > 0 {
        assert(pascal(m + 1, r) == pascal(m, (r - 1) as nat) + pascal(m, r));
    }
}

/// `C(a, r) <= C(b, r)` for `a <= b`
pub proof fn lemma_pascal_top_monotone(a: nat, b: nat, r: nat)
    requires
        a <= b,
    ensures
        pascal(a, r) <= pascal(b, r),
    decreases b - a,
{
    if a < b {
        lemma_pascal_top_monotone(a, (b - 1) as nat, r);
        lemma_pascal_top_grows((b - 1) as nat, r);
    }
}

/// `C(m - d, r - d) <= C(m, r)`
pub proof fn lemma_pascal_diagonal(m: nat, r: nat, d: nat)
    requires
        d <= r,
        d <= m,
    ensures
        pascal((m - d) as nat, (r - d) as nat) <= pascal(m, r),
    decreases d,
{
    if d > 0 {
        lemma_pascal_diagonal(m, r, (d - 1) as nat);
        let m1 = (m - d + 1) as nat;
        let r1 = (r - d + 1) as nat;
        assert(pascal(m1, r1) == pascal((m1 - 1) as nat, (r1 - 1) as nat) + pascal((m1 - 1) as nat, r1));
    }
}

/// The sorted k-subset of {0, .., n-1} with the given lexicographic rank
pub fn unrank_combination(n: usize, k: usize, rank: u128) -> (result: Result<Vec<usize>, RecoverError>)
    requires
        1 <= k <= n,
    ensures
        match result {
            Ok(positions) => positions@.len() == k && is_combination(n as nat, positions@)
                && combination_rank(n as nat, positions@) == rank,
            Err(error) => error == RecoverError::CountOverflow,
        },
        k * pascal(n as nat, k as nat) <= u128::MAX && rank < pascal(n as nat, k as nat) ==> result is Ok,
{
    let ghost fits = k * pascal(n as nat, k as nat) <= u128::MAX && rank < pascal(n as nat, k as nat);
    let mut output: Vec<usize> = Vec::new();
    let mut start: usize = 0;
    let mut remaining_rank = rank;
    let mut selected: usize = 0;
    while selected < k
        invariant
            fits == (k * pascal(n as nat, k as nat) <= u128::MAX && rank < pascal(n as nat, k as nat)),
            selected <= start,
            fits && selected < k ==> remaining_rank < pascal((n - start) as nat, (k - selected) as nat),
            selected <= k <= n,
            output@.len() == selected,
            is_combination(n as nat, output@),
            selected == 0 ==> start == 0,
            selected > 0 ==> start == output@[selected - 1] + 1,
            start <= n,
            forall|i: int| 0 <= i < output@.len() ==> output@[i] < start,
            prefix_combination_rank(n as nat, k as nat, 0, output@) + remaining_rank == rank,
            selected > 0 && selected == k ==> remaining_rank == 0,
        decreases k - selected,
    {
        let remaining = k - selected - 1;
        let mut candidate: usize = start;
        let mut found = false;
        let ghost start_rank = remaining_rank;
        while candidate < n
            invariant
                start <= candidate <= n,
                remaining == k - selected - 1,
                start_rank == skipped_blocks(n as nat, start as nat, candidate as nat, remaining as nat)
                    + remaining_rank,
                found ==> candidate < n && remaining_rank < combination_block(
                    n as nat,
                    candidate as nat,
                    remaining as nat,
                ),
                fits == (k * pascal(n as nat, k as nat) <= u128::MAX && rank < pascal(n as nat, k as nat)),
                selected <= start,
                selected < k <= n,
                fits ==> remaining_rank < pascal((n - candidate) as nat, (remaining + 1) as nat),
            ensures
                !found ==> candidate == n,
            decreases n - candidate,
        {
            proof {
                lemma_block_is_pascal(n as nat, candidate as nat, remaining as nat);
                let a = (n - candidate - 1) as nat;
                assert(pascal((n - candidate) as nat, (remaining + 1) as nat) == pascal(a, remaining as nat) + pascal(
                    a,
                    (remaining + 1) as nat,
                ));
                if fits {
                    lemma_pascal_top_monotone(a, (n - selected - 1) as nat, remaining as nat);
                    lemma_pascal_diagonal(n as nat, k as nat, (selected + 1) as nat);
                    assert((k - (selected + 1)) as nat == remaining as nat);
                    let c = pascal(a, remaining as nat);
                    let big = pascal(n as nat, k as nat);
                    assert(remaining * c <= k * big) by (nonlinear_arith)
                        requires
                            remaining < k,
                            c <= big,
                    ;
                }
            }
            let block: u128 = if remaining == 0 {
                1
            } else if n - candidate - 1 < remaining {
                0
            } else {
                let b = binomial(n - candidate - 1, remaining)?;
                b
            };
            if remaining_rank < block {
                found = true;
                break;
            }
            remaining_rank = remaining_rank - block;
            candidate = candidate + 1;
        }
        if !found {
            proof {
                if fits {
                    assert(candidate == n);
                    assert(pascal(0, (remaining + 1) as nat) == 0);
                }
            }
            return Err(RecoverError::CountOverflow);
        }
        proof {
            lemma_block_is_pascal(n as nat, candidate as nat, remaining as nat);
            lemma_prefix_rank_push(n as nat, k as nat, 0, output@, candidate);
            if selected > 0 {
                assert(output@.last() == output@[selected - 1]);
            }
        }
        output.push(candidate);
        start = candidate + 1;
        selected = selected + 1;
    }
    Ok(output)
}

} // verus!
