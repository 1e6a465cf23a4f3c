//! The recursive Fibonacci workload.
//!
//! The function is deliberately the naive doubly recursive one: what is
//! measured is call overhead, not the arithmetic. It is proved to compute the
//! Fibonacci numbers, and never to overflow on the inputs it accepts.
use vstd::prelude::*;

verus! {

/// The Fibonacci numbers: 0, 1, 1, 2, 3, 5, ...
pub open spec fn fib(n: nat) -> nat
    decreases n,
{
    if n <= 1 {
        n
    } else {
        fib((n - 1) as nat) + fib((n - 2) as nat)
    }
}

/// The largest index whose Fibonacci number fits in 64 bits.
pub const MAX_INDEX: u64 = 93;

/// The Fibonacci numbers never decrease.
pub proof fn lemma_fib_monotonic(i: nat, j: nat)
    requires
        i <= j,
    ensures
        fib(i) <= fib(j),
    decreases j,
{
    if i < j {
        if j >= 2 {
            lemma_fib_monotonic(i, (j - 1) as nat);
        }
    }
}

/// The addition formula: `fib(m + n + 1) = fib(m + 1) fib(n + 1) + fib(m) fib(n)`.
pub proof fn lemma_fib_addition(m: nat, n: nat)
    ensures
        fib(m + n + 1) == fib(m + 1) * fib(n + 1) + fib(m) * fib(n),
    decreases n,
{
    reveal_with_fuel(fib, 3);
    if n == 0 {
        assert(fib(1) == 1 && fib(0) == 0);
        assert(fib(m + 1) * 1 + fib(m) * 0 == fib(m + 1)) by (nonlinear_arith);
    } else if n == 1 {
        assert(fib(2) == 1 && fib(1) == 1);
        assert(fib(m + 2) == fib(m + 1) + fib(m));
        assert(fib(m + 1) * 1 + fib(m) * 1 == fib(m + 1) + fib(m)) by (nonlinear_arith);
    } else {
        let n1 = (n - 1) as nat;
        let n2 = (n - 2) as nat;
        lemma_fib_addition(m, n1);
        lemma_fib_addition(m, n2);
        let a = fib(m + 1);
        let b = fib(m);
        let x = fib(n);
        let y = fib(n1);
        let z = fib(n2);
        assert(fib(m + n + 1) == fib(m + n) + fib((m + n - 1) as nat));
        assert(fib(m + n1 + 1) == a * x + b * y);
        assert(fib(m + n2 + 1) == a * y + b * z);
        assert(fib(n + 1) == x + y);
        assert(x == y + z);
        assert(a * (x + y) + b * (y + z) == (a * x + b * y) + (a * y + b * z))
            by (nonlinear_arith);
    }
}

/// The value at the largest index: `fib(93) = 12200160415121876738`.
pub proof fn lemma_fib_at_max_index()
    ensures
        fib(93) == 12200160415121876738,
{
    reveal_with_fuel(fib, 13);
    assert(fib(10) == 55);
    assert(fib(11) == 89);
    assert(fib(12) == 144);
    // 23 = 11 + 11 + 1, 22 = 11 + 10 + 1
    lemma_fib_addition(11, 11);
    lemma_fib_addition(11, 10);
    assert(fib(23) == 28657) by {
        assert(144 * 144 + 89 * 89 == 28657) by (nonlinear_arith);
    }
    assert(fib(22) == 17711) by {
        assert(144 * 89 + 89 * 55 == 17711) by (nonlinear_arith);
    }
    assert(fib(24) == 46368);
    // 47 = 23 + 23 + 1, 46 = 23 + 22 + 1
    lemma_fib_addition(23, 23);
    lemma_fib_addition(23, 22);
    assert(fib(47) == 2971215073) by {
        assert(46368 * 46368 + 28657 * 28657 == 2971215073) by (nonlinear_arith);
    }
    assert(fib(46) == 1836311903) by {
        assert(46368 * 28657 + 28657 * 17711 == 1836311903) by (nonlinear_arith);
    }
    // 93 = 46 + 46 + 1
    lemma_fib_addition(46, 46);
    assert(fib(93) == 12200160415121876738) by {
        assert(2971215073 * 2971215073 + 1836311903 * 1836311903 == 12200160415121876738)
            by (nonlinear_arith);
    }
}

/// Every Fibonacci number up to the largest index fits in 64 bits.
pub proof fn lemma_fib_fits(n: nat)
    requires
        n <= MAX_INDEX,
    ensures
        fib(n) <= u64::MAX,
{
    lemma_fib_monotonic(n, 93);
    lemma_fib_at_max_index();
}

/// Computes the `n`-th Fibonacci number by the naive recursion.
///
/// Beyond index 93 the number no longer fits in 64 bits, so such an index is
/// not accepted.
pub fn fibonacci(n: u64) -> (r: u64)
    requires
        n <= MAX_INDEX,
    ensures
        r == fib(n as nat),
    decreases n,
{
    if n <= 1 {
        n
    } else {
        proof {
            lemma_fib_fits(n as nat);
        }
        fibonacci(n - 1) + fibonacci(n - 2)
    }
}

} // verus!
