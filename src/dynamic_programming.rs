//! Fibonacci numbers, naively and by carrying the last two values.

use vstd::prelude::*;

verus! {

/// The Fibonacci sequence, starting 1, 1, 2, 3, ...
pub open spec fn fib(n: nat) -> nat
    decreases n,
{
    if n <= 1 {
        1
    } else {
        fib((n - 1) as nat) + fib((n - 2) as nat)
    }
}

pub proof fn lemma_fib_monotone(m: nat, n: nat)
    requires
        m <= n,
    ensures
        fib(m) <= fib(n),
    decreases n - m,
{
    if m < n {
        lemma_fib_monotone(m, (n - 1) as nat);
    }
}

/// The `n`-th Fibonacci number, by plain recursion.
pub fn fibonacci(n: u32) -> (r: u32)
    requires
        fib(n as nat) <= u32::MAX,
    ensures
        r == fib(n as nat),
    decreases n,
{
    if n <= 1 {
        return 1;
    }
    proof {
        lemma_fib_monotone((n - 1) as nat, n as nat);
        lemma_fib_monotone((n - 2) as nat, n as nat);
    }
    fibonacci(n - 1) + fibonacci(n - 2)
}

/// The `n`-th Fibonacci number and the one before it (zero for `n == 0`),
/// each computed once.
pub fn fibonacci_dynamic(n: u32) -> (r: (u32, u32))
    requires
        fib(n as nat) <= u32::MAX,
    ensures
        r.0 == fib(n as nat),
        r.1 == if n == 0 {
            0
        } else {
            fib((n - 1) as nat)
        },
    decreases n,
{
    if n == 0 {
        return (1, 0);
    }
    proof {
        lemma_fib_monotone((n - 1) as nat, n as nat);
    }
    let (last, beforelast) = fibonacci_dynamic(n - 1);
    (last + beforelast, last)
}

} // verus!
