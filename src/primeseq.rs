//! An unbounded incremental sieve of Eratosthenes and a trial-division primality test.

use std::collections::HashMap;
use vstd::prelude::*;
use crate::number::{is_prime_nat, lemma_divides_trans, least_prime_factor, lemma_least_prime_factor, lemma_prime_divides_product};

verus! {

broadcast use vstd::std_specs::hash::group_hash_axioms;

/// One past the largest value a `u32` holds: the sieve produces the primes below it.
pub open spec fn prime_ceiling() -> nat {
    0x1_0000_0000
}

/// The least prime in `lo..hi`, if there is one.
pub open spec fn first_prime_from(lo: nat, hi: nat) -> Option<nat>
    decreases hi - lo,
{
    if lo >= hi {
        None
    } else if is_prime_nat(lo) {
        Some(lo)
    } else {
        first_prime_from(lo + 1, hi)
    }
}

/// Where a sieve that has produced every prime below `lo` stands after its next step.
pub open spec fn floor_after(lo: nat) -> nat {
    match first_prime_from(lo, prime_ceiling()) {
        Some(p) => p + 1,
        None => prime_ceiling(),
    }
}

/// What the sieve yields is prime and no prime is skipped: `first_prime_from` is the
/// least prime of the range, or `None` when the range holds none.
pub proof fn lemma_first_prime_from(lo: nat, hi: nat)
    ensures
        match first_prime_from(lo, hi) {
            Some(p) => {
                &&& lo <= p < hi
                &&& is_prime_nat(p)
                &&& forall|n: nat| lo <= n < p ==> !#[trigger] is_prime_nat(n)
            },
            None => forall|n: nat| lo <= n < hi ==> !#[trigger] is_prime_nat(n),
        },
    decreases hi - lo,
{
    if lo < hi && !is_prime_nat(lo) {
        lemma_first_prime_from(lo + 1, hi);
    }
}

/// A number with no divisor from 2 up to some `i` with `i * i > n` is prime.
proof fn lemma_prime_by_trial(n: nat, i: nat)
    requires
        n >= 2,
        i * i > n,
        forall|d: nat| 2 <= d < i ==> #[trigger] (n % d) != 0,
    ensures
        is_prime_nat(n),
{
    if !is_prime_nat(n) {
        lemma_least_prime_factor(n);
        let p = least_prime_factor(n);
        assert(p >= i);
        assert(false) by (nonlinear_arith)
            requires
                p >= i,
                p * p <= n,
                i * i > n,
        ;
    }
}

/// An odd `n` with no divisor below the odd `i` has none below `i + 2` unless `i` divides it.
proof fn lemma_trial_step(n: nat, i: nat)
    requires
        n % 2 == 1,
        i % 2 == 1,
        i >= 3,
        n % i != 0,
        forall|d: nat| 2 <= d < i ==> #[trigger] (n % d) != 0,
    ensures
        forall|d: nat| 2 <= d < i + 2 ==> #[trigger] (n % d) != 0,
{
    assert forall|d: nat| 2 <= d < i + 2 implies #[trigger] (n % d) != 0 by {
        if d == i + 1 && n % d == 0 {
            lemma_divides_trans(2, d, n);
        }
    }
}

/// Whether `n` is prime, by trial division with odd divisors up to its square root.
#[verifier::spinoff_prover]
#[verifier::rlimit(40)]
pub fn is_prime(n: u32) -> (r: bool)
    ensures
        r == is_prime_nat(n as nat),
{
    if n < 4 {
        return n >= 2;
    }
    if n % 2 == 0 {
        assert((n as nat) % 2 == 0);
        return false;
    }
    if n % 6 != 1 && n % 6 != 5 {
        assert((n as nat) % 3 == 0) by {
            assert(n % 6 == 3);
            vstd::arithmetic::div_mod::lemma_mod_mod(n as int, 3, 2);
        }
        return false;
    }
    let nn = n as u64;
    let mut i: u64 = 3;
    assert forall|d: nat| 2 <= d < 3 implies #[trigger] ((n as nat) % d) != 0 by {
        assert(d == 2);
    }
    loop
        invariant
            nn == n,
            n >= 5,
            n % 2 == 1,
            3 <= i <= 0x1_0001,
            i % 2 == 1,
            forall|d: nat| 2 <= d < i ==> #[trigger] ((n as nat) % d) != 0,
        decreases 0x1_0002 - i,
    {
        assert(i * i <= 0x1_0001 * 0x1_0001) by (nonlinear_arith)
            requires
                i <= 0x1_0001,
        ;
        if i * i > nn {
            proof {
                lemma_prime_by_trial(n as nat, i as nat);
            }
            return true;
        }
        assert(i <= 0xffff) by (nonlinear_arith)
            requires
                i * i <= nn,
                nn < 0x1_0000_0000,
        ;
        assert(i < nn) by (nonlinear_arith)
            requires
                i * i <= nn,
                i >= 3,
        ;
        if nn % i == 0 {
            assert((n as nat) % (i as nat) == 0);
            return false;
        }
        proof {
            lemma_trial_step(n as nat, i as nat);
        }
        i = i + 2;
    }
}

/// Sieves are deterministic: two sieves at the same floor yield the same value from
/// `next` and move to the same floor, so fresh sieves driven in step agree throughout.
pub proof fn lemma_sieves_agree(a: Eratosthenes, b: Eratosthenes)
    requires
        a.wf(),
        b.wf(),
        a.floor() == b.floor(),
    ensures
        first_prime_from(a.floor(), prime_ceiling()) == first_prime_from(b.floor(), prime_ceiling()),
        floor_after(a.floor()) == floor_after(b.floor()),
{
}

/// A valid entry of the composite-witness map while `q` is the next candidate:
/// `k` is an odd multiple of the odd prime `p < q`, no smaller than `p * p` nor `q`.
spec fn witness_ok(q: nat, k: nat, p: nat) -> bool {
    &&& q <= k <= q * q
    &&& k % 2 == 1
    &&& 3 <= p < q
    &&& is_prime_nat(p)
    &&& k % p == 0
    &&& p * p <= k
}

/// Some entry of the map is marked by `p`.
spec fn has_witness(d: Map<u64, u32>, p: nat) -> bool {
    exists|k: u64| d.contains_key(k) && d[k] == p
}

/// The invariant of the sieve with candidate `q` and witness map `d`.
spec fn sieve_inv(q: u64, d: Map<u64, u32>) -> bool {
    // before the first call the map is empty; afterwards candidates are odd
    &&& q == 2 ==> d.dom().is_empty()
    &&& q != 2 ==> q % 2 == 1 && 3 <= q <= prime_ceiling() + 1
    &&& forall|k: u64| #[trigger] d.contains_key(k) ==> witness_ok(q as nat, k as nat, d[k] as nat)
    &&& forall|p: nat| 3 <= p < q && is_prime_nat(p) ==> #[trigger] has_witness(d, p)
    // a multiple skipped while rescheduling is marked by another entry
    &&& forall|k: u64, m: u64|
        #![trigger d.contains_key(k), d.contains_key(m)]
        d.contains_key(k) && q <= m < k && m % 2 == 1 && m % (d[k] as u64) == 0 && d[k] * d[k]
            <= m ==> d.contains_key(m)
}

/// Two multiples of `p` less than `2 * p` apart are exactly `p` apart.
proof fn lemma_between_multiples(p: nat, x: nat, m: nat)
    requires
        p > 0,
        x % p == 0,
        m % p == 0,
        x < m < x + 2 * p,
    ensures
        m == x + p,
{
    vstd::arithmetic::div_mod::lemma_fundamental_div_mod(x as int, p as int);
    vstd::arithmetic::div_mod::lemma_fundamental_div_mod(m as int, p as int);
    let a = x / p;
    let b = m / p;
    assert(a < b < a + 2) by (nonlinear_arith)
        requires
            x == p * a,
            m == p * b,
            x < m < x + 2 * p,
            p > 0,
    ;
    assert(m == x + p) by (nonlinear_arith)
        requires
            x == p * a,
            m == p * b,
            b == a + 1,
    ;
}

/// A candidate that no entry marks is prime.
proof fn lemma_unmarked_is_prime(q: u64, d: Map<u64, u32>)
    requires
        sieve_inv(q, d),
        q != 2,
        !d.contains_key(q),
    ensures
        is_prime_nat(q as nat),
{
    if !is_prime_nat(q as nat) {
        lemma_least_prime_factor(q as nat);
        let p = least_prime_factor(q as nat);
        assert(p != 2) by {
            if p == 2 {
                assert((q as nat) % 2 == 0);
            }
        }
        assert(p < q);
        assert(has_witness(d, p));
        let k = choose|k: u64| d.contains_key(k) && d[k] == p;
        assert(witness_ok(q as nat, k as nat, p));
        assert(k != q);
        assert(q % (d[k] as u64) == 0);
        assert(d.contains_key(k) && d.contains_key(q));
    }
}

/// Registering `q * q` for a new prime `q` and moving on keeps the invariant.
proof fn lemma_prime_step(q: u64, d: Map<u64, u32>)
    requires
        sieve_inv(q, d),
        q != 2,
        q < prime_ceiling(),
        is_prime_nat(q as nat),
        !d.contains_key(q),
    ensures
        q * q <= u64::MAX,
        sieve_inv((q + 2) as u64, d.insert((q * q) as u64, q as u32)),
{
    let qq = q as nat * q as nat;
    assert(qq < 0x1_0000_0000_0000_0000) by (nonlinear_arith)
        requires
            q < 0x1_0000_0000,
            qq == q as nat * q as nat,
    ;
    assert(q + 2 <= qq <= (q + 2) * (q + 2)) by (nonlinear_arith)
        requires
            q >= 3,
            qq == q as nat * q as nat,
    ;
    vstd::arithmetic::div_mod::lemma_mod_multiples_basic(q as int, q as int);
    assert(qq % 2 == 1) by {
        vstd::arithmetic::div_mod::lemma_mul_mod_noop_general(q as int, q as int, 2);
    }
    let kq = qq as u64;
    assert(!d.contains_key(kq)) by {
        if d.contains_key(kq) {
            let p = d[kq] as nat;
            assert(witness_ok(q as nat, kq as nat, p));
            lemma_prime_divides_product(p, q as nat, q as nat);
            assert((q as nat) % p == 0);
        }
    }
    let nq = (q + 2) as u64;
    let d2 = d.insert(kq, q as u32);
    assert forall|k: u64| #[trigger] d2.contains_key(k) implies witness_ok(
        nq as nat,
        k as nat,
        d2[k] as nat,
    ) by {
        if k != kq {
            assert(witness_ok(q as nat, k as nat, d[k] as nat));
            assert(k as nat * k as nat >= 0);
            assert(q as nat * q as nat <= nq as nat * nq as nat) by (nonlinear_arith)
                requires
                    q < nq,
            ;
        }
    }
    assert forall|p: nat| 3 <= p < nq && is_prime_nat(p) implies #[trigger] has_witness(d2, p) by {
        if p == q + 1 {
            assert(p % 2 == 0);
        } else if p == q {
            assert(d2.contains_key(kq) && d2[kq] == p);
        } else {
            assert(has_witness(d, p));
            let k = choose|k: u64| d.contains_key(k) && d[k] == p;
            assert(d2.contains_key(k) && d2[k] == p);
        }
    }
    assert forall|k: u64, m: u64|
        #![trigger d2.contains_key(k), d2.contains_key(m)]
        d2.contains_key(k) && nq <= m < k && m % 2 == 1 && m % (d2[k] as u64) == 0 && d2[k]
            * d2[k] <= m implies d2.contains_key(m) by {
        if k != kq {
            assert(d.contains_key(k) && d.contains_key(m));
        }
    }
}

/// Rescheduling the entry found at a composite `q` to the free multiple `x` and moving
/// on keeps the invariant.
proof fn lemma_composite_step(q: u64, d: Map<u64, u32>, x: u64)
    requires
        sieve_inv(q, d),
        q != 2,
        q < prime_ceiling(),
        d.contains_key(q),
        q < x <= q * q + 2 * d[q],
        x % 2 == 1,
        x % (d[q] as u64) == 0,
        forall|m: u64|
            q < m < x && m % 2 == 1 && m % (d[q] as u64) == 0 ==> #[trigger] d.contains_key(m),
        !d.contains_key(x),
    ensures
        sieve_inv((q + 2) as u64, d.remove(q).insert(x, d[q])),
        !is_prime_nat(q as nat),
        !is_prime_nat(q as nat + 1),
{
    let p = d[q];
    assert(witness_ok(q as nat, q as nat, p as nat));
    assert((q as nat) % (p as nat) == 0);
    assert((q as nat + 1) % 2 == 0);
    let nq = (q + 2) as u64;
    let d2 = d.remove(q).insert(x, p);
    assert(x as nat <= nq as nat * nq as nat) by (nonlinear_arith)
        requires
            x <= q * q + 2 * p,
            p < q,
            nq == q + 2,
    ;
    assert forall|k: u64| #[trigger] d2.contains_key(k) implies witness_ok(
        nq as nat,
        k as nat,
        d2[k] as nat,
    ) by {
        if k != x {
            assert(witness_ok(q as nat, k as nat, d[k] as nat));
            assert(q as nat * q as nat <= nq as nat * nq as nat) by (nonlinear_arith)
                requires
                    q < nq,
            ;
        }
    }
    assert forall|p1: nat| 3 <= p1 < nq && is_prime_nat(p1) implies #[trigger] has_witness(
        d2,
        p1,
    ) by {
        if p1 == q + 1 {
            assert(p1 % 2 == 0);
        } else if p1 == q {
            assert(p1 % (p as nat) == 0);
        } else if p1 == p {
            assert(d2.contains_key(x) && d2[x] == p1);
        } else {
            assert(has_witness(d, p1));
            let k = choose|k: u64| d.contains_key(k) && d[k] == p1;
            assert(d2.contains_key(k) && d2[k] == p1);
        }
    }
    assert forall|k: u64, m: u64|
        #![trigger d2.contains_key(k), d2.contains_key(m)]
        d2.contains_key(k) && nq <= m < k && m % 2 == 1 && m % (d2[k] as u64) == 0 && d2[k]
            * d2[k] <= m implies d2.contains_key(m) by {
        if k != x {
            assert(d.contains_key(k) && d.contains_key(m));
        }
    }
}

/// The state of the sieve: a candidate counter and the map from each scheduled
/// composite to the prime that marks it. Keys are `u64`, so that the square of any
/// `u32` prime, and each later multiple scheduled from it, fits.
pub struct Eratosthenes {
    q: u64,
    d: HashMap<u64, u32>,
}

impl Eratosthenes {
    /// Every prime below `floor()` has been produced; the next one is the least prime from there.
    pub closed spec fn floor(&self) -> nat {
        if self.q <= 3 {
            self.q as nat
        } else {
            (self.q - 1) as nat
        }
    }

    /// The sieve's invariant: every entry marks an odd multiple of its prime, at or past the
    /// candidate; every odd prime below the candidate has an entry; and each odd multiple
    /// of an entry's prime between the candidate and that entry is itself an entry.
    pub closed spec fn wf(&self) -> bool {
        sieve_inv(self.q, self.d@)
    }

    /// A fresh sieve, positioned before the first prime.
    pub fn new() -> (r: Eratosthenes)
        ensures
            r.wf(),
            r.floor() == 2,
    {
        Eratosthenes { q: 2, d: HashMap::new() }
    }

    /// Produces the least prime not yet produced, or `None` once every prime
    /// that fits in a `u32` has been produced.
    pub fn next(&mut self) -> (r: Option<u32>)
        requires
            old(self).wf(),
        ensures
            final(self).wf(),
            match first_prime_from(old(self).floor(), prime_ceiling()) {
                Some(p) => r == Some(p as u32),
                None => r is None,
            },
            final(self).floor() == floor_after(old(self).floor()),
            r matches Some(v) ==> is_prime_nat(v as nat) && old(self).floor() <= v,
    {
        if self.q == 2 {
            self.q = 3;
            proof {
                assert(is_prime_nat(2));
            }
            return Some(2);
        }
        let ghost lo = self.floor();
        proof {
            if lo < self.q {
                assert((lo as nat) % 2 == 0);
            }
        }
        loop
            invariant
                self.wf(),
                self.q != 2,
                lo == old(self).floor(),
                lo <= self.q,
                forall|n: nat| lo <= n < self.q ==> !#[trigger] is_prime_nat(n),
            decreases prime_ceiling() + 2 - self.q,
        {
            proof {
                lemma_first_prime_from(lo, prime_ceiling());
            }
            if self.q > 0xffff_ffff {
                return None;
            }
            let q = self.q;
            let ghost d0 = self.d@;
            match self.d.remove(&q) {
                Some(p) => {
                    let ghost d1 = self.d@;
                    proof {
                        assert(witness_ok(q as nat, q as nat, p as nat));
                        assert((p as nat) % 2 != 0);
                    }
                    let p2: u64 = 2 * (p as u64);
                    let mut x: u64 = q + p2;
                    proof {
                        vstd::arithmetic::div_mod::lemma_mod_multiples_vanish(2, q as int, p as int);
                        assert forall|m: u64|
                            q < m < x && m % 2 == 1 && m % (p as u64) == 0 implies #[trigger] d0.contains_key(m) by {
                            lemma_between_multiples(p as nat, q as nat, m as nat);
                            assert((m as nat) % 2 == 0);
                        }
                        assert(q as nat <= q as nat * q as nat) by (nonlinear_arith)
                            requires
                                q >= 1,
                        ;
                    }
                    while self.d.contains_key(&x)
                        invariant
                            self.d@ == d1,
                            d1 == d0.remove(q),
                            sieve_inv(q, d0),
                            d0.contains_key(q),
                            d0[q] == p,
                            p2 == 2 * p,
                            p % 2 == 1,
                            q < 0x1_0000_0000,
                            q < x <= q * q + p2,
                            x % 2 == 1,
                            x % (p as u64) == 0,
                            forall|m: u64|
                                q < m < x && m % 2 == 1 && m % (p as u64) == 0
                                    ==> #[trigger] d0.contains_key(m),
                        decreases q * q + p2 - x,
                    {
                        proof {
                            assert(witness_ok(q as nat, x as nat, d0[x] as nat));
                            assert(q * q + p2 <= u64::MAX) by (nonlinear_arith)
                                requires
                                    q < 0x1_0000_0000,
                                    p2 == 2 * p,
                                    p < q,
                            ;
                            vstd::arithmetic::div_mod::lemma_mod_multiples_vanish(2, x as int, p as int);
                            assert forall|m: u64|
                                q < m < x + p2 && m % 2 == 1 && m % (p as u64) == 0 implies #[trigger] d0.contains_key(m) by {
                                if m > x {
                                    lemma_between_multiples(p as nat, x as nat, m as nat);
                                    assert((m as nat) % 2 == 0);
                                } else if m == x {
                                    assert(self.d@.contains_key(x));
                                }
                            }
                        }
                        x = x + p2;
                    }
                    proof {
                        lemma_composite_step(q, d0, x);
                    }
                    self.d.insert(x, p);
                    self.q = q + 2;
                },
                None => {
                    proof {
                        assert(self.d@ =~= d0);
                        lemma_unmarked_is_prime(q, d0);
                        lemma_prime_step(q, d0);
                    }
                    self.d.insert(q * q, q as u32);
                    self.q = q + 2;
                    return Some(q as u32);
                },
            }
        }
    }
}

} // verus!
