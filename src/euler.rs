//! Prime factorisation driven by the sieve, and Euler's totient function.

use vstd::prelude::*;
use crate::primeseq::{Eratosthenes, first_prime_from, lemma_first_prime_from, prime_ceiling};
use crate::number::{
    is_prime_nat, least_prime_factor, lemma_divides_trans, lemma_least_prime_factor,
    lemma_prime_divides_product,
};

verus! {

/// The prime factors of `n` in ascending order, with multiplicity: the least prime
/// factor, then the factors of what is left. Empty for `0` and `1`.
pub open spec fn prime_factors(n: nat) -> Seq<nat>
    decreases n,
    via prime_factors_decreases
{
    if n < 2 {
        seq![]
    } else {
        seq![least_prime_factor(n)] + prime_factors(n / least_prime_factor(n))
    }
}

#[via_fn]
proof fn prime_factors_decreases(n: nat) {
    if n >= 2 {
        lemma_least_prime_factor(n);
        vstd::arithmetic::div_mod::lemma_div_decreases(n as int, least_prime_factor(n) as int);
    }
}

/// The product of a sequence of naturals.
pub open spec fn product(s: Seq<nat>) -> nat
    decreases s.len(),
{
    if s.len() == 0 {
        1
    } else {
        s[0] * product(s.drop_first())
    }
}

/// A sequence of `u32` read as naturals.
pub open spec fn as_nats(s: Seq<u32>) -> Seq<nat> {
    s.map_values(|x: u32| x as nat)
}

/// Every element is prime and the order is non-decreasing.
pub open spec fn sorted_primes(s: Seq<nat>) -> bool {
    &&& forall|i: int| 0 <= i < s.len() ==> is_prime_nat(#[trigger] s[i])
    &&& forall|i: int, j: int| 0 <= i <= j < s.len() ==> s[i] <= s[j]
}

/// The factorisation of `n >= 1` consists of primes in non-decreasing order whose
/// product is `n`, and each of them divides `n`.
pub proof fn lemma_prime_factors(n: nat)
    requires
        n >= 1,
    ensures
        sorted_primes(prime_factors(n)),
        product(prime_factors(n)) == n,
        forall|i: int|
            0 <= i < prime_factors(n).len() ==> n % #[trigger] prime_factors(n)[i] == 0
                && least_prime_factor(n) <= prime_factors(n)[i],
    decreases n,
{
    if n >= 2 {
        let p = least_prime_factor(n);
        lemma_least_prime_factor(n);
        let m = n / p;
        vstd::arithmetic::div_mod::lemma_fundamental_div_mod(n as int, p as int);
        vstd::arithmetic::div_mod::lemma_div_decreases(n as int, p as int);
        assert(m >= 1) by (nonlinear_arith)
            requires
                n == p * m,
                n >= 2,
        ;
        lemma_prime_factors(m);
        let s = prime_factors(n);
        let t = prime_factors(m);
        assert(s.drop_first() =~= t);
        vstd::arithmetic::div_mod::lemma_mod_multiples_basic(p as int, m as int);
        assert(n % m == 0) by {
            assert(n == p * m);
            assert(p * m == m * p) by (nonlinear_arith);
        }
        assert forall|i: int| 0 <= i < t.len() implies n % #[trigger] t[i] == 0 && p <= t[i] by {
            lemma_divides_trans(t[i], m, n);
            assert(is_prime_nat(t[i]));
        }
        assert forall|i: int| 0 <= i < s.len() implies n % #[trigger] s[i] == 0 && p <= s[i] by {
            if i > 0 {
                assert(s[i] == t[i - 1]);
            }
        }
    }
}


/// Factorisation is deterministic: two lists of `u32` that both read as the
/// factorisation of `n` are the same list.
pub proof fn lemma_factors_determined(n: nat, a: Seq<u32>, b: Seq<u32>)
    requires
        as_nats(a) == prime_factors(n),
        as_nats(b) == prime_factors(n),
    ensures
        a == b,
{
    assert(a.len() == as_nats(a).len());
    assert forall|i: int| 0 <= i < a.len() implies a[i] == b[i] by {
        assert(as_nats(a)[i] == a[i] as nat);
        assert(as_nats(b)[i] == b[i] as nat);
    }
    assert(a =~= b);
}

/// A prime that divides a product of naturals divides one of them.
proof fn lemma_prime_divides_some(q: nat, s: Seq<nat>)
    requires
        is_prime_nat(q),
        product(s) % q == 0,
    ensures
        exists|i: int| 0 <= i < s.len() && #[trigger] s[i] % q == 0,
    decreases s.len(),
{
    if s.len() == 0 {
        vstd::arithmetic::div_mod::lemma_small_mod(1, q);
    } else {
        lemma_prime_divides_product(q, s[0], product(s.drop_first()));
        if s[0] % q != 0 {
            lemma_prime_divides_some(q, s.drop_first());
            let i = choose|i: int| 0 <= i < s.drop_first().len() && #[trigger] s.drop_first()[i] % q == 0;
            assert(s[i + 1] % q == 0);
        } else {
            assert(s[0] % q == 0);
        }
    }
}

/// Factorisations are unique: primes in non-decreasing order are exactly the
/// factorisation of their product. In particular, the product of the first `k`
/// primes factors into those `k` primes.
pub proof fn lemma_factorization_unique(s: Seq<nat>)
    requires
        sorted_primes(s),
    ensures
        prime_factors(product(s)) == s,
    decreases s.len(),
{
    if s.len() > 0 {
        let t = s.drop_first();
        assert(sorted_primes(t)) by {
            assert forall|i: int| 0 <= i < t.len() implies is_prime_nat(#[trigger] t[i]) by {
                assert(t[i] == s[i + 1]);
            }
        }
        lemma_factorization_unique(t);
        let p = s[0];
        let rest = product(t);
        let n = product(s);
        assert(is_prime_nat(p));
        assert(n == p * rest);
        assert(rest >= 1) by {
            lemma_product_positive(t);
        }
        assert(n >= 2) by (nonlinear_arith)
            requires
                n == p * rest,
                p >= 2,
                rest >= 1,
        ;
        lemma_least_prime_factor(n);
        let l = least_prime_factor(n);
        vstd::arithmetic::div_mod::lemma_mod_multiples_basic(rest as int, p as int);
        assert(n % p == 0) by {
            assert(p * rest == rest * p) by (nonlinear_arith);
        }
        assert(l == p) by {
            if l < p {
                lemma_prime_divides_some(l, s);
                let i = choose|i: int| 0 <= i < s.len() && #[trigger] s[i] % l == 0;
                assert(is_prime_nat(s[i]));
                assert(s[0] <= s[i]);
            }
        }
        vstd::arithmetic::div_mod::lemma_div_multiples_vanish(rest as int, p as int);
        assert(n / p == rest);
        assert(prime_factors(n) =~= seq![p] + t);
    }
}

/// A product of primes is positive.
proof fn lemma_product_positive(s: Seq<nat>)
    requires
        forall|i: int| 0 <= i < s.len() ==> is_prime_nat(#[trigger] s[i]),
    ensures
        product(s) >= 1,
    decreases s.len(),
{
    if s.len() > 0 {
        let t = s.drop_first();
        assert forall|i: int| 0 <= i < t.len() implies is_prime_nat(#[trigger] t[i]) by {
            assert(t[i] == s[i + 1]);
        }
        lemma_product_positive(t);
        assert(s[0] >= 2);
        assert(s[0] * product(t) >= 1) by (nonlinear_arith)
            requires
                s[0] >= 2,
                product(t) >= 1,
        ;
    }
}


/// The prime factors of `n` in ascending order with multiplicity, found by dividing
/// `n` by the primes of a fresh sieve until nothing is left. Empty for `0` and `1`.
pub fn factors(n: u32) -> (r: Vec<u32>)
    ensures
        as_nats(r@) == prime_factors(n as nat),
{
    let mut result: Vec<u32> = Vec::new();
    if n < 2 {
        assert(as_nats(result@) =~= prime_factors(n as nat));
        return result;
    }
    let mut m: u32 = n;
    let mut primes = Eratosthenes::new();
    loop
        invariant
            primes.wf(),
            m >= 2,
            2 <= primes.floor() <= prime_ceiling(),
            forall|d: nat| 2 <= d < primes.floor() ==> #[trigger] ((m as nat) % d) != 0,
            as_nats(result@) + prime_factors(m as nat) == prime_factors(n as nat),
        decreases prime_ceiling() - primes.floor(),
    {
        let ghost lo = primes.floor();
        proof {
            lemma_least_prime_factor(m as nat);
            lemma_first_prime_from(lo, prime_ceiling());
            let l = least_prime_factor(m as nat);
            assert(lo <= l);
        }
        let p = match primes.next() {
            Some(p) => p,
            None => {
                proof {
                    assert(is_prime_nat(least_prime_factor(m as nat)));
                }
                return result;
            },
        };
        proof {
            assert(first_prime_from(lo, prime_ceiling()) == Some(p as nat));
        }
        while m % p == 0
            invariant
                m >= 1,
                is_prime_nat(p as nat),
                lo <= p,
                forall|k: nat| lo <= k < p ==> !#[trigger] is_prime_nat(k),
                forall|d: nat| 2 <= d < lo ==> #[trigger] ((m as nat) % d) != 0,
                as_nats(result@) + prime_factors(m as nat) == prime_factors(n as nat),
            decreases m,
        {
            let ghost m0 = m as nat;
            proof {
                if m0 < 2 {
                    vstd::arithmetic::div_mod::lemma_small_mod(m0, p as nat);
                }
                lemma_least_prime_factor(m0);
                let l = least_prime_factor(m0);
                assert(l == p) by {
                    if l < p {
                        assert(!is_prime_nat(l));
                    }
                }
                vstd::arithmetic::div_mod::lemma_div_decreases(m0 as int, p as int);
                vstd::arithmetic::div_mod::lemma_fundamental_div_mod(m0 as int, p as int);
            }
            let ghost before = as_nats(result@);
            result.push(p);
            m = m / p;
            proof {
                let m1 = m as nat;
                assert(as_nats(result@) =~= before + seq![p as nat]);
                assert(prime_factors(m0) == seq![p as nat] + prime_factors(m1));
                assert(as_nats(result@) + prime_factors(m1) =~= before + prime_factors(m0));
                assert(m1 >= 1) by (nonlinear_arith)
                    requires
                        m0 == p * m1,
                        m0 >= 2,
                ;
                vstd::arithmetic::div_mod::lemma_mod_multiples_basic(p as int, m1 as int);
                assert(m0 % m1 == 0) by {
                    assert(m0 == p * m1);
                    assert(p * m1 == m1 * p) by (nonlinear_arith);
                }
                assert forall|d: nat| 2 <= d < lo implies #[trigger] (m1 % d) != 0 by {
                    if m1 % d == 0 {
                        lemma_divides_trans(d, m1, m0);
                    }
                }
            }
        }
        if m == 1 {
            proof {
                assert(prime_factors(1) =~= seq![]);
                assert(as_nats(result@) + prime_factors(1) =~= as_nats(result@));
            }
            return result;
        }
        proof {
            assert forall|d: nat| 2 <= d < p + 1 implies #[trigger] ((m as nat) % d) != 0 by {
                if lo <= d < p && (m as nat) % d == 0 {
                    lemma_least_prime_factor(d);
                    lemma_divides_trans(least_prime_factor(d), d, m as nat);
                    assert(!is_prime_nat(least_prime_factor(d)));
                }
            }
        }
    }
}


/// The totient read off a factorisation in non-decreasing order: the product formula
/// `n * (1 - 1/p)` over the distinct primes `p`, written over integers, in which each
/// distinct prime contributes `p - 1` at its first occurrence and `p` at each repeat.
pub open spec fn totient_of(s: Seq<nat>) -> nat
    decreases s.len(),
{
    if s.len() == 0 {
        1
    } else {
        let init = s.drop_last();
        let p = s.last();
        totient_of(init) * if init.len() > 0 && init.last() == p {
            p
        } else {
            (p - 1) as nat
        }
    }
}

/// Euler's totient of `n`, taken to be `0` at `0`.
pub open spec fn totient(n: nat) -> nat {
    if n == 0 {
        0
    } else {
        totient_of(prime_factors(n))
    }
}

/// Euler's totient of `n` by the product formula over its distinct prime factors,
/// in exact integer arithmetic: starting from `n`, each distinct prime `p` turns the
/// running value `v` into `v / p * (p - 1)`. `phi(0)` is `0`.
pub fn phi(n: u32) -> (r: u32)
    ensures
        r == totient(n as nat),
{
    if n == 0 {
        return 0;
    }
    let fs = factors(n);
    let ghost s = as_nats(fs@);
    proof {
        lemma_prime_factors(n as nat);
        assert(s.skip(0) =~= s);
        assert(s.take(0) =~= seq![]);
        assert(totient_of(s.take(0)) == 1);
        assert(product(s.skip(0)) == n);
    }
    let mut result: u32 = n;
    let mut i: usize = 0;
    while i < fs.len()
        invariant
            s == as_nats(fs@),
            s == prime_factors(n as nat),
            sorted_primes(s),
            i <= fs.len(),
            result as nat == totient_of(s.take(i as int)) * product(s.skip(i as int)),
        decreases fs.len() - i,
    {
        let p = fs[i];
        let ghost t = totient_of(s.take(i as int));
        let ghost rest = product(s.skip((i + 1) as int));
        proof {
            assert(s[i as int] == p as nat);
            assert(is_prime_nat(p as nat));
            assert(s.skip(i as int).drop_first() =~= s.skip((i + 1) as int));
            assert(product(s.skip(i as int)) == p * rest);
            assert(s.take((i + 1) as int).drop_last() =~= s.take(i as int));
            if i > 0 {
                assert(s.take(i as int).last() == s[i - 1]);
            }
        }
        if i == 0 || fs[i - 1] != p {
            proof {
                assert(totient_of(s.take((i + 1) as int)) == t * ((p - 1) as nat));
                assert(result as nat == p * (t * rest)) by (nonlinear_arith)
                    requires
                        result as nat == t * (p * rest),
                ;
                vstd::arithmetic::div_mod::lemma_div_multiples_vanish((t * rest) as int, p as int);
                assert(result as nat / (p as nat) * ((p - 1) as nat) == t * ((p - 1) as nat) * rest)
                    by (nonlinear_arith)
                    requires
                        result as nat / (p as nat) == t * rest,
                ;
                assert(result / p * (p - 1) <= result) by (nonlinear_arith)
                    requires
                        p >= 2,
                ;
            }
            result = result / p * (p - 1);
        } else {
            proof {
                assert(totient_of(s.take((i + 1) as int)) == t * p);
                assert(t * (p * rest) == (t * p) * rest) by (nonlinear_arith);
            }
        }
        i = i + 1;
    }
    proof {
        assert(s.take(i as int) =~= s);
        assert(s.skip(i as int) =~= seq![]);
        assert(product(s.skip(i as int)) == 1);
        assert(totient_of(s) * 1 == totient_of(s));
    }
    result
}

} // verus!
