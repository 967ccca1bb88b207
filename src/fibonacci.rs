use vstd::prelude::*;

verus! {

/// The number of values of a `u64`.
pub open spec fn u64_modulus() -> int {
    0x1_0000_0000_0000_0000
}

/// The Fibonacci numbers over the unbounded naturals: F(0) = 0, F(1) = 1.
pub open spec fn fib(n: nat) -> nat
    decreases n,
{
    if n <= 1 {
        n
    } else {
        fib((n - 1) as nat) + fib((n - 2) as nat)
    }
}

/// F(n) reduced modulo 2^64, the value a `u64` holds after wrapping additions.
pub open spec fn fib_wrapped(n: nat) -> int {
    fib(n) as int % u64_modulus()
}

/// Computes the `n`-th Fibonacci number iteratively; additions wrap on
/// overflow, so the result is F(n) modulo 2^64.
pub fn fibonacci(n: u32) -> (r: u64)
    ensures
        r as int == fib_wrapped(n as nat),
{
    if n <= 1 {
        return n as u64;
    }
    let mut a: u64 = 0;
    let mut b: u64 = 1;
    let mut i: u64 = 2;
    while i <= n as u64
        invariant
            2 <= i <= n as int + 1,
            a as int == fib_wrapped((i - 2) as nat),
            b as int == fib_wrapped((i - 1) as nat),
        decreases n as int + 1 - i,
    {
        let temp = a.wrapping_add(b);
        proof {
            lemma_wrapped_step((i - 2) as nat);
        }
        a = b;
        b = temp;
        i = i + 1;
    }
    b
}

/// Computes F(a) + F(b) with the same wraparound as `fibonacci`.
pub fn fibonacci_sum(a: u32, b: u32) -> (r: u64)
    ensures
        r as int == (fib_wrapped(a as nat) + fib_wrapped(b as nat)) % u64_modulus(),
{
    let x = fibonacci(a);
    let y = fibonacci(b);
    x.wrapping_add(y)
}

proof fn lemma_wrapped_step(k: nat)
    ensures
        fib_wrapped(k + 2) == (fib_wrapped(k) + fib_wrapped(k + 1)) % u64_modulus(),
{
    assert(fib(k + 2) == fib(k) + fib(k + 1));
    vstd::arithmetic::div_mod::lemma_add_mod_noop(fib(k) as int, fib(k + 1) as int, u64_modulus());
}

/// The wrapped Fibonacci numbers keep the recurrence: for n >= 2 the n-th is
/// the sum of the two before it, modulo 2^64.
pub proof fn lemma_fibonacci_recurrence(n: nat)
    requires
        n >= 2,
    ensures
        fib_wrapped(n) == (fib_wrapped((n - 1) as nat) + fib_wrapped((n - 2) as nat)) % u64_modulus(),
{
    lemma_wrapped_step((n - 2) as nat);
}

} // verus!
