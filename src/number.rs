//! The mathematical model: primes and least divisors over `nat`, with the divisibility facts the proofs use.

use vstd::prelude::*;

verus! {

/// `n` is a prime number: at least 2, and no integer strictly between 1 and `n` divides it.
pub open spec fn is_prime_nat(n: nat) -> bool {
    &&& n >= 2
    &&& forall|d: nat| 2 <= d < n ==> #[trigger] (n % d) != 0
}

/// The least `d` in `lo..=n` that divides `n` (`n` itself when none smaller does).
pub open spec fn least_divisor_from(n: nat, lo: nat) -> nat
    decreases n - lo,
{
    if lo >= n {
        n
    } else if lo > 0 && n % lo == 0 {
        lo
    } else {
        least_divisor_from(n, lo + 1)
    }
}

/// The smallest prime factor of `n >= 2`.
pub open spec fn least_prime_factor(n: nat) -> nat {
    least_divisor_from(n, 2)
}

/// `least_divisor_from(n, lo)` lies in `lo..=n`, divides `n`, and nothing from `lo` below it does.
pub proof fn lemma_least_divisor_from(n: nat, lo: nat)
    requires
        2 <= lo <= n,
    ensures
        lo <= least_divisor_from(n, lo) <= n,
        n % least_divisor_from(n, lo) == 0,
        forall|d: nat| lo <= d < least_divisor_from(n, lo) ==> #[trigger] (n % d) != 0,
    decreases n - lo,
{
    if lo < n && n % lo != 0 {
        lemma_least_divisor_from(n, lo + 1);
    }
    if lo == n {
        vstd::arithmetic::div_mod::lemma_mod_self_0(n as int);
    }
}


/// Divisibility is transitive.
pub proof fn lemma_divides_trans(a: nat, b: nat, c: nat)
    requires
        a > 0,
        b > 0,
        b % a == 0,
        c % b == 0,
    ensures
        c % a == 0,
{
    vstd::arithmetic::div_mod::lemma_fundamental_div_mod(b as int, a as int);
    vstd::arithmetic::div_mod::lemma_fundamental_div_mod(c as int, b as int);
    let k = (b / a) * (c / b);
    assert(c == k * a) by (nonlinear_arith)
        requires
            b == a * (b / a),
            c == b * (c / b),
            k == (b / a) * (c / b),
    ;
    vstd::arithmetic::div_mod::lemma_mod_multiples_basic(k as int, a as int);
}

/// The smallest factor of `n >= 2` above 1 is prime, divides `n`, and when `n` is
/// not itself prime its square is at most `n`.
pub proof fn lemma_least_prime_factor(n: nat)
    requires
        n >= 2,
    ensures
        2 <= least_prime_factor(n) <= n,
        n % least_prime_factor(n) == 0,
        is_prime_nat(least_prime_factor(n)),
        forall|d: nat| 2 <= d < least_prime_factor(n) ==> #[trigger] (n % d) != 0,
        least_prime_factor(n) < n ==> least_prime_factor(n) * least_prime_factor(n) <= n,
        is_prime_nat(n) <==> least_prime_factor(n) == n,
{
    let p = least_prime_factor(n);
    lemma_least_divisor_from(n, 2);
    assert forall|d: nat| 2 <= d < p implies #[trigger] (p % d) != 0 by {
        if p % d == 0 {
            lemma_divides_trans(d, p, n);
        }
    }
    if p < n {
        vstd::arithmetic::div_mod::lemma_fundamental_div_mod(n as int, p as int);
        let k = n / p;
        assert(n == k * p);
        assert(k >= 2) by (nonlinear_arith)
            requires
                n == k * p,
                p < n,
                p >= 2,
        ;
        vstd::arithmetic::div_mod::lemma_mod_multiples_basic(p as int, k as int);
        assert(n % k == 0) by {
            assert(n == p * k) by (nonlinear_arith)
                requires
                    n == k * p,
            ;
        }
        assert(k >= p);
        assert(p * p <= n) by (nonlinear_arith)
            requires
                n == k * p,
                k >= p,
                p >= 2,
        ;
        assert(!is_prime_nat(n)) by {
            assert(n % p == 0);
        }
    }
}


/// A prime that divides a product divides one of its two factors.
pub proof fn lemma_prime_divides_product(p: nat, a: nat, b: nat)
    requires
        is_prime_nat(p),
        (a * b) % p == 0,
    ensures
        a % p == 0 || b % p == 0,
    decreases a,
{
    if a % p != 0 {
        let r = a % p;
        vstd::arithmetic::div_mod::lemma_mul_mod_noop_left(a as int, b as int, p as int);
        assert((r * b) % p == 0);
        if r == 1 {
            assert(r * b == b) by (nonlinear_arith)
                requires
                    r == 1,
            ;
        } else {
            assert(p % r != 0);
            let k = p / r;
            let s = p % r;
            vstd::arithmetic::div_mod::lemma_fundamental_div_mod(p as int, r as int);
            vstd::arithmetic::div_mod::lemma_fundamental_div_mod((r * b) as int, p as int);
            let t = (r * b) / p;
            assert(s * b == p * (b - k * t)) by (nonlinear_arith)
                requires
                    p == r * k + s,
                    r * b == p * t,
            ;
            assert(b - k * t >= 0) by (nonlinear_arith)
                requires
                    s * b == p * (b - k * t),
                    p > 0,
                    s > 0,
            ;
            vstd::arithmetic::div_mod::lemma_mod_multiples_basic((b - k * t) as int, p as int);
            assert((s * b) % p == 0) by {
                assert(s * b == (b - k * t) * p) by (nonlinear_arith)
                    requires
                        s * b == p * (b - k * t),
                ;
            }
            assert(s < r);
            vstd::arithmetic::div_mod::lemma_mod_decreases(a, p);
            lemma_prime_divides_product(p, s, b);
            vstd::arithmetic::div_mod::lemma_small_mod(s, p);
        }
    }
}

} // verus!
