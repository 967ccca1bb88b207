use vstd::prelude::*;
use vstd::arithmetic::div_mod::{
    lemma_fundamental_div_mod,
    lemma_mod_add_multiples_vanish,
    lemma_mod_multiples_basic,
};

verus! {

/// Primality by trial division: `k` is at least 2 and no `d` in `[2, k)`
/// divides it.
pub open spec fn is_prime(k: int) -> bool {
    k >= 2 && forall|d: int| 2 <= d < k ==> #[trigger] (k % d) != 0
}

/// The number of primes in `[0, n]`.
pub open spec fn count_primes(n: nat) -> nat
    decreases n,
{
    if n == 0 {
        0
    } else {
        count_primes((n - 1) as nat) + if is_prime(n as int) {
            1nat
        } else {
            0nat
        }
    }
}

/// `k` has a divisor `d` with `2 <= d < p` and `d * d <= k`: the sieve has
/// struck `k` once every candidate below `p` has been handled.
#[verifier::opaque]
spec fn struck(k: int, p: int) -> bool {
    exists|d: int| 2 <= d < p && d * d <= k && #[trigger] (k % d) == 0
}

proof fn lemma_divides_trans(d: int, p: int, k: int)
    requires
        d > 0,
        p > 0,
        p % d == 0,
        k % p == 0,
    ensures
        k % d == 0,
{
    lemma_fundamental_div_mod(p, d);
    lemma_fundamental_div_mod(k, p);
    let x = p / d;
    let y = k / p;
    assert(k == (x * y) * d) by (nonlinear_arith)
        requires
            p == d * x,
            k == p * y,
    ;
    lemma_mod_multiples_basic(x * y, d);
}

proof fn lemma_multiples_spaced(m: int, k: int, p: int)
    requires
        p > 0,
        m % p == 0,
        k % p == 0,
        m < k,
    ensures
        m + p <= k,
{
    lemma_fundamental_div_mod(m, p);
    lemma_fundamental_div_mod(k, p);
    let a = m / p;
    let b = k / p;
    assert(a < b) by (nonlinear_arith)
        requires
            m == p * a,
            k == p * b,
            m < k,
            p > 0,
    ;
    assert(m + p <= k) by (nonlinear_arith)
        requires
            m == p * a,
            k == p * b,
            a + 1 <= b,
            p > 0,
    ;
}

/// A composite candidate strikes nothing new: whatever it would strike, one of
/// its own divisors has already struck.
proof fn lemma_composite_adds_nothing(p: int, k: int)
    requires
        2 <= p,
        struck(p, p),
        k % p == 0,
        p * p <= k,
    ensures
        struck(k, p),
{
    reveal(struck);
    let d = choose|d: int| 2 <= d < p && d * d <= p && #[trigger] (p % d) == 0;
    lemma_divides_trans(d, p, k);
    assert(p <= p * p) by (nonlinear_arith)
        requires
            2 <= p,
    ;
    assert(2 <= d < p && d * d <= k && k % d == 0);
}

proof fn lemma_struck_next(k: int, p: int)
    requires
        2 <= p,
    ensures
        struck(k, p + 1) == (struck(k, p) || (k % p == 0 && p * p <= k)),
{
    reveal(struck);
    if struck(k, p + 1) {
        let d = choose|d: int| 2 <= d < p + 1 && d * d <= k && #[trigger] (k % d) == 0;
        if d < p {
            assert(struck(k, p));
        }
    }
    if struck(k, p) {
        let d = choose|d: int| 2 <= d < p && d * d <= k && #[trigger] (k % d) == 0;
        assert(2 <= d < p + 1 && d * d <= k && k % d == 0);
    }
    if k % p == 0 && p * p <= k {
        assert(2 <= p < p + 1 && p * p <= k && k % p == 0);
    }
}

/// Once `p * p` exceeds the limit, the entries the sieve leaves standing are
/// exactly the primes.
proof fn lemma_unstruck_is_prime(k: int, p: int, limit: int)
    requires
        2 <= k <= limit,
        limit < p * p,
        2 <= p,
    ensures
        !struck(k, p) == is_prime(k),
{
    reveal(struck);
    if struck(k, p) {
        let d = choose|d: int| 2 <= d < p && d * d <= k && #[trigger] (k % d) == 0;
        assert(d < k) by (nonlinear_arith)
            requires
                2 <= d,
                d * d <= k,
        ;
        assert(!is_prime(k));
    }
    if !is_prime(k) {
        let d = choose|d: int| 2 <= d < k && #[trigger] (k % d) == 0;
        lemma_fundamental_div_mod(k, d);
        let e = k / d;
        assert(k == d * e);
        assert(2 <= e < k) by (nonlinear_arith)
            requires
                k == d * e,
                2 <= d < k,
        ;
        lemma_mod_multiples_basic(d, e);
        assert(k % e == 0) by {
            assert(d * e == e * d) by (nonlinear_arith);
        }
        let m = if d <= e { d } else { e };
        assert(m * m <= k) by (nonlinear_arith)
            requires
                k == d * e,
                m == d || m == e,
                m <= d,
                m <= e,
                2 <= m,
        ;
        assert(m < p) by (nonlinear_arith)
            requires
                m * m <= k,
                k <= limit,
                limit < p * p,
                2 <= p,
                2 <= m,
        ;
        assert(k % m == 0);
        assert(struck(k, p));
    }
}

/// Counts the primes in `[0, limit]` with a sieve of Eratosthenes.
pub fn prime_count(limit: u32) -> (r: u32)
    requires
        (limit as int) < usize::MAX,
    ensures
        r == count_primes(limit as nat),
{
    if limit < 2 {
        assert(count_primes(limit as nat) == 0) by {
            reveal_with_fuel(count_primes, 2);
        }
        return 0;
    }
    let n: usize = limit as usize + 1;
    let mut sieve: Vec<bool> = vec![true; n];
    sieve.set(0, false);
    sieve.set(1, false);
    assert forall|k: int| 0 <= k <= limit implies sieve@[k] == (k >= 2 && !struck(k, 2)) by {
        reveal(struck);
        if k >= 2 {
            assert(cloned(true, sieve@[k]));
        }
    }

    let mut p: u64 = 2;
    while p * p <= limit as u64
        invariant
            sieve@.len() == limit + 1,
            2 <= p <= 65536,
            p * p <= 0x1_0000_0000,
            (p - 1) * (p - 1) <= limit,
            forall|k: int| 0 <= k <= limit ==> #[trigger] sieve@[k] == (k >= 2 && !struck(k, p as int)),
        decreases limit + 1 - p,
    {
        let ghost pi = p as int;
        assert(p <= limit && p <= 65535) by (nonlinear_arith)
            requires
                p * p <= limit,
                2 <= p,
                limit <= u32::MAX,
        ;
        if sieve[p as usize] {
            let mut m: u64 = p * p;
            assert(m == pi * pi);
            assert(m % p == 0) by {
                lemma_mod_multiples_basic(pi, pi);
            }
            while m <= limit as u64
                invariant
                    sieve@.len() == limit + 1,
                    pi == p,
                    2 <= p <= 65536,
                    p * p <= limit,
                    p * p <= m <= limit + p,
                    m % p == 0,
                    forall|k: int|
                        0 <= k <= limit ==> #[trigger] sieve@[k] == (k >= 2 && !struck(k, pi) && !(k % pi == 0
                            && pi * pi <= k && k < m)),
                decreases limit + p - m,
            {
                sieve.set(m as usize, false);
                assert forall|k: int| 0 <= k <= limit implies sieve@[k] == (k >= 2 && !struck(
                    k,
                    pi,
                ) && !(k % pi == 0 && pi * pi <= k && k < m + pi)) by {
                    if k != m && k % pi == 0 && pi * pi <= k && m <= k && k < m + pi {
                        lemma_multiples_spaced(m as int, k, pi);
                    }
                }
                proof {
                    lemma_mod_add_multiples_vanish(m as int, pi);
                }
                m = m + p;
            }
            assert forall|k: int| 0 <= k <= limit implies sieve@[k] == (k >= 2 && !struck(
                k,
                pi + 1,
            )) by {
                lemma_struck_next(k, pi);
            }
        } else {
            assert forall|k: int| 0 <= k <= limit implies sieve@[k] == (k >= 2 && !struck(
                k,
                pi + 1,
            )) by {
                lemma_struck_next(k, pi);
                if k % pi == 0 && pi * pi <= k {
                    lemma_composite_adds_nothing(pi, k);
                }
            }
        }
        p = p + 1;
        assert(p * p <= 0x1_0000_0000) by (nonlinear_arith)
            requires
                p <= 65536,
        ;
    }

    assert forall|k: int| 0 <= k <= limit implies sieve@[k] == is_prime(k) by {
        if k >= 2 {
            lemma_unstruck_is_prime(k, p as int, limit as int);
        }
    }

    assert(count_primes(1) == 0) by {
        reveal_with_fuel(count_primes, 2);
    }
    let mut count: u32 = 0;
    let mut i: usize = 2;
    while i < n
        invariant
            n == limit + 1,
            sieve@.len() == n,
            2 <= i <= n,
            count <= i - 2,
            count == count_primes((i - 1) as nat),
            forall|k: int| 0 <= k <= limit ==> #[trigger] sieve@[k] == is_prime(k),
        decreases n - i,
    {
        if sieve[i] {
            count = count + 1;
        }
        i = i + 1;
    }
    count
}

} // verus!
