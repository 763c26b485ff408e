//! Number-theoretic definitions shared by the candidate sources, the
//! primality test and the calculators.
use vstd::prelude::*;

verus! {

/// `n` is prime: at least 2, with no divisor strictly between 1 and `n`.
pub open spec fn is_prime(n: int) -> bool {
    n >= 2 && forall|d: int| 2 <= d < n ==> #[trigger] (n % d) != 0
}

/// The product of the first `n` entries of `primes` (1 for `n == 0`).
pub open spec fn primorial_of(primes: Seq<u32>, n: nat) -> nat
    decreases n,
{
    if n == 0 || n > primes.len() {
        1
    } else {
        primorial_of(primes, (n - 1) as nat) * (primes[n - 1] as nat)
    }
}

/// If `q` divides both `a` and `x`, it divides `a % x`.
pub proof fn lemma_mod_keeps_factor(q: int, a: int, x: int)
    requires
        q > 0,
        x > 0,
        a >= 0,
        a % q == 0,
        x % q == 0,
    ensures
        (a % x) % q == 0,
{
    let s = x / q;
    let t = a / q;
    let k = a / x;
    assert(x == q * s) by {
        vstd::arithmetic::div_mod::lemma_fundamental_div_mod(x, q);
    }
    assert(a == q * t) by {
        vstd::arithmetic::div_mod::lemma_fundamental_div_mod(a, q);
    }
    assert(a == x * k + a % x) by {
        vstd::arithmetic::div_mod::lemma_fundamental_div_mod(a, x);
    }
    assert(a % x == q * (t - s * k)) by (nonlinear_arith)
        requires
            x == q * s,
            a == q * t,
            a == x * k + a % x,
    ;
    vstd::arithmetic::div_mod::lemma_mod_multiples_basic(t - s * k, q);
    assert((t - s * k) * q == q * (t - s * k)) by (nonlinear_arith);
}

/// A multiple of `q` stays a multiple of `q` when multiplied by anything.
pub proof fn lemma_product_keeps_factor(q: int, a: int, b: int)
    requires
        q > 0,
        a % q == 0,
    ensures
        (a * b) % q == 0,
{
    let t = a / q;
    assert(a == q * t) by {
        vstd::arithmetic::div_mod::lemma_fundamental_div_mod(a, q);
    }
    assert(a * b == (t * b) * q) by (nonlinear_arith)
        requires
            a == q * t,
    ;
    vstd::arithmetic::div_mod::lemma_mod_multiples_basic(t * b, q);
}

/// Every entry among the first `n` of `primes` divides their product.
pub proof fn lemma_primorial_has_factor(primes: Seq<u32>, n: nat, i: int)
    requires
        n <= primes.len(),
        0 <= i < n,
        primes[i] > 0,
    ensures
        (primorial_of(primes, n) as int) % (primes[i] as int) == 0,
    decreases n,
{
    let q = primes[i] as int;
    if i == n - 1 {
        let a = primorial_of(primes, (n - 1) as nat) as int;
        vstd::arithmetic::div_mod::lemma_mod_multiples_basic(a, q);
    } else {
        lemma_primorial_has_factor(primes, (n - 1) as nat, i);
        lemma_product_keeps_factor(
            q,
            primorial_of(primes, (n - 1) as nat) as int,
            primes[n - 1] as int,
        );
    }
}

} // verus!
