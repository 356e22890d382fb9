use rs_utils::euler::{factors, phi};
use rs_utils::primeseq::Eratosthenes;

#[test]
fn test_factors() {
    let mut known = Vec::new();
    let mut n: u32 = 1;
    let mut primes = Eratosthenes::new();
    while let Some(prime) = primes.next() {
        n *= prime;
        known.push(prime);
        assert_eq!(factors(n), known);
        if n > 10_000 {
            break;
        }
    }
}

#[test]
fn test_phi() {
    for (n, p) in (1..).zip(vec![1, 1, 2, 2, 4, 2, 6, 4, 6, 4, 10, 4]) {
        assert_eq!(phi(n), p);
    }
}

#[test]
fn factors_of_231() {
    assert_eq!(factors(231), vec![3, 7, 11]);
}

#[test]
fn factors_of_zero_and_one_are_empty() {
    assert_eq!(factors(0), Vec::<u32>::new());
    assert_eq!(factors(1), Vec::<u32>::new());
}

#[test]
fn factors_keep_multiplicity_in_order() {
    assert_eq!(factors(360), vec![2, 2, 2, 3, 3, 5]);
    assert_eq!(factors(1024), vec![2; 10]);
    assert_eq!(factors(97), vec![97]);
}

#[test]
fn factors_of_largest_u32() {
    assert_eq!(factors(u32::MAX), vec![3, 5, 17, 257, 65537]);
}

#[test]
fn factors_with_two_large_primes() {
    assert_eq!(factors(65521 * 65537), vec![65521, 65537]);
}

#[test]
fn factors_multiply_back() {
    for n in 1..2000u32 {
        let fs = factors(n);
        assert_eq!(fs.iter().product::<u32>(), n);
        assert!(fs.windows(2).all(|w| w[0] <= w[1]));
    }
}

#[test]
fn first_primes_product_factors_into_them() {
    assert_eq!(factors(2 * 3 * 5 * 7 * 11 * 13 * 17 * 19 * 23), vec![2, 3, 5, 7, 11, 13, 17, 19, 23]);
}

#[test]
fn phi_of_prime() {
    assert_eq!(phi(13), 12);
    assert_eq!(phi(65537), 65536);
}

#[test]
fn phi_of_zero_is_zero() {
    assert_eq!(phi(0), 0);
}

#[test]
fn phi_of_composites() {
    assert_eq!(phi(36), 12);
    assert_eq!(phi(1024), 512);
    assert_eq!(phi(231), 120);
    assert_eq!(phi(u32::MAX), 2_147_483_648);
}

#[test]
fn repeated_calls_agree() {
    for n in [0u32, 1, 12, 231, 9973, 65536] {
        assert_eq!(factors(n), factors(n));
        assert_eq!(phi(n), phi(n));
    }
}
