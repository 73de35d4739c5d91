//! Summing the integers from one to `n`, five ways.
//!
//! Every function computes the same signed triangular sum [`sum_to`]: a
//! counting loop, a fold written out as a loop, plain recursion, recursion
//! with a memo table, and the closed-form product.  Negative arguments give
//! the negated sum of their magnitude.  The shared input bound is what
//! keeps every intermediate value inside a 64-bit integer.

use std::collections::HashMap;
use vstd::prelude::*;

verus! {

broadcast use vstd::std_specs::hash::group_hash_axioms;

/// The largest magnitude for which `n * (n + 1)` still fits an `i64`.
pub const SUM_INPUT_LIMIT: i64 = 3037000499;

/// The sum of the integers from one to `n`; for negative `n`, the negated
/// sum of the integers from one to `-n`.
pub open spec fn sum_to(n: int) -> int
    decreases (if n < 0 { 1 - n } else { n }),
{
    if n > 0 {
        n + sum_to(n - 1)
    } else if n == 0 {
        0
    } else {
        -sum_to(-n)
    }
}

/// The closed form of the sum, kept free of division: twice the sum is the
/// product of `n` and its successor.
pub proof fn lemma_sum_formula(n: int)
    requires
        n >= 0,
    ensures
        2 * sum_to(n) == n * (n + 1),
    decreases n,
{
    if n > 0 {
        lemma_sum_formula(n - 1);
        let s = sum_to(n - 1);
        assert(sum_to(n) == n + s);
        assert(2 * s == (n - 1) * n ==> 2 * (n + s) == n * (n + 1)) by (nonlinear_arith);
        assert(2 * sum_to(n) == n * (n + 1));
    } else {
        assert(n == 0);
        assert(sum_to(n) == 0);
        assert(n * (n + 1) == 0) by (nonlinear_arith)
            requires
                n == 0,
        ;
        assert(2 * sum_to(n) == n * (n + 1));
    }
}

/// Partial sums never pass the whole sum.
proof fn lemma_sum_mono(k: int, n: int)
    requires
        0 <= k <= n,
    ensures
        0 <= sum_to(k) <= sum_to(n),
    decreases n - k,
{
    if k < n {
        lemma_sum_mono(k, n - 1);
    } else {
        lemma_sum_nonneg(k);
    }
}

/// The sum of ones up to a non-negative bound is non-negative.
proof fn lemma_sum_nonneg(n: int)
    requires
        n >= 0,
    ensures
        sum_to(n) >= 0,
    decreases n,
{
    if n > 0 {
        lemma_sum_nonneg(n - 1);
    }
}

/// Within the input limit the whole sum fits an `i64`.
proof fn lemma_sum_fits(n: int)
    requires
        0 <= n <= SUM_INPUT_LIMIT,
    ensures
        0 <= sum_to(n) <= i64::MAX,
{
    lemma_sum_formula(n);
    assert(n * (n + 1) <= SUM_INPUT_LIMIT * (SUM_INPUT_LIMIT + 1)) by (nonlinear_arith)
        requires
            0 <= n <= SUM_INPUT_LIMIT,
    ;
    lemma_sum_nonneg(n);
}

/// Sums by counting up in a loop.
pub fn _loop(n: i64) -> (r: i64)
    requires
        -SUM_INPUT_LIMIT <= n <= SUM_INPUT_LIMIT,
    ensures
        r == sum_to(n as int),
    decreases (if n < 0 { 1 - n as int } else { n as int }),
{
    if n > 0 {
        let mut ret_val: i64 = 0;
        let mut k: i64 = 1;
        proof {
            assert(sum_to(0) == 0);
        }
        while k <= n
            invariant
                1 <= k <= n + 1,
                n <= SUM_INPUT_LIMIT,
                ret_val == sum_to(k - 1),
            decreases n + 1 - k,
        {
            proof {
                lemma_sum_mono(k as int, n as int);
                lemma_sum_fits(n as int);
            }
            ret_val = ret_val + k;
            k = k + 1;
        }
        ret_val
    } else if n == 0 {
        0
    } else {
        proof {
            lemma_sum_fits(-n as int);
        }
        -_loop(-n)
    }
}

/// Sums by folding the running total over the range, the fold written out
/// as its loop.
pub fn reduce(n: i64) -> (r: i64)
    requires
        -SUM_INPUT_LIMIT <= n <= SUM_INPUT_LIMIT,
    ensures
        r == sum_to(n as int),
    decreases (if n < 0 { 1 - n as int } else { n as int }),
{
    if n > 0 {
        let mut acc: i64 = 1;
        let mut e: i64 = 2;
        proof {
            assert(sum_to(0) == 0);
            assert(sum_to(1) == 1);
        }
        while e <= n
            invariant
                2 <= e <= n + 1,
                n <= SUM_INPUT_LIMIT,
                acc == sum_to(e - 1),
            decreases n + 1 - e,
        {
            proof {
                lemma_sum_mono(e as int, n as int);
                lemma_sum_fits(n as int);
            }
            acc = acc + e;
            e = e + 1;
        }
        acc
    } else if n == 0 {
        0
    } else {
        proof {
            lemma_sum_fits(-n as int);
        }
        -reduce(-n)
    }
}

/// Sums by plain recursion.
pub fn recursive(n: i64) -> (r: i64)
    requires
        -SUM_INPUT_LIMIT <= n <= SUM_INPUT_LIMIT,
    ensures
        r == sum_to(n as int),
    decreases (if n < 0 { 1 - n as int } else { n as int }),
{
    if n > 0 {
        proof {
            lemma_sum_mono(n as int, n as int);
            lemma_sum_fits(n as int);
        }
        n + recursive(n - 1)
    } else if n == 0 {
        0
    } else {
        proof {
            lemma_sum_fits(-n as int);
        }
        -recursive(-n)
    }
}

/// Whether every entry of a memo table is the sum it claims to be.
pub open spec fn cache_ok(cache: Map<i64, i64>) -> bool {
    forall|k: i64| #[trigger] cache.contains_key(k) ==> cache[k] == sum_to(k as int)
}

/// Sums by recursion with a memo table; correct answers go in, so correct
/// answers come out, and nothing already memoised is lost.
pub fn memoized_recursive(n: i64, cache: &mut HashMap<i64, i64>) -> (r: i64)
    requires
        -SUM_INPUT_LIMIT <= n <= SUM_INPUT_LIMIT,
        cache_ok(old(cache)@),
    ensures
        r == sum_to(n as int),
        cache_ok(final(cache)@),
        forall|k: i64| old(cache)@.contains_key(k) ==> final(cache)@.contains_key(k),
    decreases (if n < 0 { 1 - n as int } else { n as int }),
{
    match cache.get(&n) {
        Some(k) => *k,
        None => {
            let mut k: i64 = 0;
            if n > 0 {
                proof {
                    lemma_sum_mono(n as int, n as int);
                    lemma_sum_fits(n as int);
                }
                k = n + memoized_recursive(n - 1, cache);
            } else if n < 0 {
                proof {
                    lemma_sum_fits(-n as int);
                }
                k = -memoized_recursive(-n, cache);
            }
            cache.insert(n, k);
            k
        },
    }
}

/// Sums by the closed-form product.
pub fn gauss_sum(n: i64) -> (r: i64)
    requires
        -SUM_INPUT_LIMIT <= n <= SUM_INPUT_LIMIT,
    ensures
        r == sum_to(n as int),
    decreases (if n < 0 { 1 - n as int } else { n as int }),
{
    if n > 0 {
        proof {
            assert(0 <= n * (n + 1) <= SUM_INPUT_LIMIT * (SUM_INPUT_LIMIT + 1)) by (nonlinear_arith)
                requires
                    0 < n <= SUM_INPUT_LIMIT,
            ;
            lemma_sum_formula(n as int);
            assert(2 * sum_to(n as int) / 2 == sum_to(n as int));
        }
        n * (n + 1) / 2
    } else if n == 0 {
        0
    } else {
        proof {
            lemma_sum_fits(-n as int);
        }
        -gauss_sum(-n)
    }
}

} // verus!
