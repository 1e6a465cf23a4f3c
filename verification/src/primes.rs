//! The prime sieve workload.
//!
//! The sieve of Eratosthenes is proved to count exactly the primes up to its
//! argument. The proof follows the usual argument: once every candidate
//! below `p` has been crossed, a number is still uncrossed exactly when it
//! has no proper divisor below `p`; and a composite number has a divisor
//! whose square does not exceed it.
use vstd::arithmetic::div_mod::{
    lemma_fundamental_div_mod,
    lemma_mod_add_multiples_vanish,
    lemma_mod_multiples_basic,
};
use vstd::prelude::*;

verus! {

/// `k` is prime: at least 2, and divisible by nothing in between 1 and itself.
pub open spec fn is_prime(k: nat) -> bool {
    &&& k >= 2
    &&& forall|d: nat| 2 <= d < k ==> #[trigger] (k % d) != 0
}

/// The number of primes that are at most `n`.
pub open spec fn prime_count(n: nat) -> nat
    decreases n,
{
    if n < 2 {
        0
    } else {
        prime_count((n - 1) as nat) + if is_prime(n) {
            1nat
        } else {
            0nat
        }
    }
}

/// `k` is at least 2 and has no proper divisor below `p`. This is what the
/// sieve knows of an uncrossed number when it reaches the candidate `p`.
pub open spec fn survives(k: nat, p: nat) -> bool {
    &&& k >= 2
    &&& forall|d: nat| 2 <= d < p && d < k ==> #[trigger] (k % d) != 0
}

/// A number divisible by `d` is `d` times its quotient, and the quotient divides it too.
proof fn lemma_cofactor(k: nat, d: nat)
    requires
        d > 0,
        k % d == 0,
    ensures
        k == d * (k / d),
        k / d > 0 ==> k % (k / d) == 0,
{
    lemma_fundamental_div_mod(k as int, d as int);
    let q = k / d;
    if q > 0 {
        lemma_mod_multiples_basic(d as int, q as int);
        assert(d * q == q * d) by (nonlinear_arith);
    }
}

/// Divisibility is transitive.
proof fn lemma_divides_transitive(d: nat, p: nat, k: nat)
    requires
        d > 0,
        p > 0,
        p % d == 0,
        k % p == 0,
    ensures
        k % d == 0,
{
    lemma_cofactor(p, d);
    lemma_cofactor(k, p);
    let a = p / d;
    let b = k / p;
    assert((d * a) * b == (a * b) * d) by (nonlinear_arith);
    lemma_mod_multiples_basic((a * b) as int, d as int);
}

/// Between two neighbouring multiples of `p` there is no multiple of `p`.
proof fn lemma_no_multiple_between(i: nat, k: nat, p: nat)
    requires
        p > 0,
        i % p == 0,
        i < k < i + p,
    ensures
        k % p != 0,
{
    if k % p == 0 {
        lemma_cofactor(i, p);
        lemma_cofactor(k, p);
        let a = i / p;
        let b = k / p;
        assert(false) by (nonlinear_arith)
            requires
                p > 0,
                p * a < p * b,
                p * b < p * a + p,
        ;
    }
}

/// Crossing the multiples of `p` from its square on is what moving from
/// candidate `p` to candidate `p + 1` asks for.
proof fn lemma_survives_step(k: nat, p: nat)
    requires
        p >= 2,
    ensures
        survives(k, p + 1) == (survives(k, p) && !(p * p <= k && k % p == 0)),
{
    assert(p * p >= p + p) by (nonlinear_arith)
        requires
            p >= 2,
    ;
    if survives(k, p) {
        if p * p <= k && k % p == 0 {
            // `p` itself is a proper divisor below `p + 1`.
            assert(!survives(k, p + 1));
        } else if p < k && k % p == 0 {
            // a multiple of `p` below its square has a cofactor below `p`
            lemma_cofactor(k, p);
            let j = k / p;
            assert(2 <= j < p) by (nonlinear_arith)
                requires
                    k == p * j,
                    p < k,
                    k < p * p,
                    p >= 2,
            ;
            assert(j < k) by (nonlinear_arith)
                requires
                    k == p * j,
                    j >= 2,
                    p >= 2,
            ;
            assert(k % j == 0);
            assert(false);
        } else {
            assert forall|d: nat| 2 <= d < p + 1 && d < k implies #[trigger] (k % d) != 0 by {
                if d < p {
                    assert(k % d != 0);
                }
            }
        }
    } else {
        if k >= 2 {
            let d = choose|d: nat| 2 <= d < p && d < k && #[trigger] (k % d) == 0;
            assert(2 <= d < p + 1 && d < k && k % d == 0);
        }
    }
}

/// Where the candidate `p` itself is already crossed, every multiple of it is too.
proof fn lemma_crossed_candidate(k: nat, p: nat)
    requires
        p >= 2,
        !survives(p, p),
        survives(k, p),
    ensures
        !(p * p <= k && k % p == 0),
{
    if p * p <= k && k % p == 0 {
        let d = choose|d: nat| 2 <= d < p && d < p && #[trigger] (p % d) == 0;
        lemma_divides_transitive(d, p, k);
        assert(p * p >= p) by (nonlinear_arith)
            requires
                p >= 2,
        ;
        assert(k % d == 0);
        assert(false);
    }
}

/// Once the square of the candidate exceeds `k`, an uncrossed `k` is prime.
proof fn lemma_survivor_is_prime(k: nat, p: nat)
    requires
        k < p * p,
    ensures
        survives(k, p) == is_prime(k),
{
    if survives(k, p) {
        assert forall|d: nat| 2 <= d < k implies #[trigger] (k % d) != 0 by {
            if k % d == 0 {
                if d < p {
                    assert(false);
                } else {
                    lemma_cofactor(k, d);
                    let j = k / d;
                    assert(2 <= j < p && j < k) by (nonlinear_arith)
                        requires
                            k == d * j,
                            2 <= d < k,
                            p <= d,
                            k < p * p,
                    ;
                    assert(k % j == 0);
                    assert(false);
                }
            }
        }
    } else if k >= 2 {
        let d = choose|d: nat| 2 <= d < p && d < k && #[trigger] (k % d) == 0;
        assert(2 <= d < k && k % d == 0);
    }
}

/// Counts the primes up to `n` with the sieve of Eratosthenes.
///
/// The table has `n + 1` entries, so `n` must leave room for one more.
pub fn sieve_of_eratosthenes(n: usize) -> (count: usize)
    requires
        n < usize::MAX,
    ensures
        count == prime_count(n as nat),
{
    if n < 2 {
        return 0;
    }
    let mut uncrossed: Vec<bool> = vec![true; n + 1];
    uncrossed.set(0, false);
    uncrossed.set(1, false);

    let mut p: usize = 2;
    while p <= n / p
        invariant
            2 <= p <= n,
            uncrossed.len() == n + 1,
            forall|k: int| 0 <= k <= n ==> uncrossed@[k] == survives(k as nat, p as nat),
        decreases n - p,
    {
        proof {
            lemma_fundamental_div_mod(n as int, p as int);
        }
        assert(p * p <= n && p + 1 <= n) by (nonlinear_arith)
            requires
                2 <= p <= n / p,
                n == p * (n / p) + n % p,
                0 <= n % p,
        {
        }
        if uncrossed[p] {
            let mut i: usize = p * p;
            proof {
                lemma_mod_multiples_basic(p as int, p as int);
            }
            loop
                invariant_except_break
                    forall|k: int|
                        0 <= k <= n ==> uncrossed@[k] == (survives(k as nat, p as nat) && !(p * p
                            <= k < i && k % (p as int) == 0)),
                invariant
                    2 <= p <= n,
                    p * p <= i <= n,
                    i % p == 0,
                    uncrossed.len() == n + 1,
                ensures
                    forall|k: int|
                        0 <= k <= n ==> uncrossed@[k] == (survives(k as nat, p as nat) && !(p * p
                            <= k && k % (p as int) == 0)),
                decreases n - i,
            {
                uncrossed.set(i, false);
                proof {
                    assert forall|k: int| 0 <= k <= n implies uncrossed@[k] == (survives(
                        k as nat,
                        p as nat,
                    ) && !(p * p <= k < i + p && k % (p as int) == 0)) by {
                        if i < k < i + p {
                            lemma_no_multiple_between(i as nat, k as nat, p as nat);
                        }
                    }
                }
                if n - i < p {
                    break ;
                }
                proof {
                    lemma_mod_add_multiples_vanish(i as int, p as int);
                }
                i += p;
            }
            proof {
                assert forall|k: int| 0 <= k <= n implies uncrossed@[k] == survives(
                    k as nat,
                    (p + 1) as nat,
                ) by {
                    lemma_survives_step(k as nat, p as nat);
                }
            }
        } else {
            proof {
                assert forall|k: int| 0 <= k <= n implies uncrossed@[k] == survives(
                    k as nat,
                    (p + 1) as nat,
                ) by {
                    lemma_survives_step(k as nat, p as nat);
                    if survives(k as nat, p as nat) {
                        lemma_crossed_candidate(k as nat, p as nat);
                    }
                }
            }
        }
        p += 1;
    }
    proof {
        lemma_fundamental_div_mod(n as int, p as int);
        assert(n < p * p) by (nonlinear_arith)
            requires
                p > n / p,
                p >= 2,
                n == p * (n / p) + n % p,
                n % p < p,
        {
        }
        assert forall|k: int| 0 <= k <= n implies uncrossed@[k] == is_prime(k as nat) by {
            assert(k < p * p);
            lemma_survivor_is_prime(k as nat, p as nat);
        }
    }

    let mut count: usize = 0;
    let mut k: usize = 2;
    while k <= n
        invariant
            2 <= k <= n + 1,
            n < usize::MAX,
            uncrossed.len() == n + 1,
            forall|j: int| 0 <= j <= n ==> uncrossed@[j] == is_prime(j as nat),
            count == prime_count((k - 1) as nat),
            count <= k,
        decreases n + 1 - k,
    {
        if uncrossed[k] {
            count += 1;
        }
        k += 1;
    }
    count
}

} // verus!
