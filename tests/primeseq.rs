use rs_utils::primeseq::{is_prime, Eratosthenes};

#[test]
fn test_safe_primes() {
    for prime in vec![2, 3, 5, 7, 11] {
        assert!(is_prime(prime));
    }

    for not_prime in vec![0, 1, 4, 6, 8] {
        assert!(!is_prime(not_prime));
    }
}

#[test]
fn test_eratosthenes() {
    let mut primes = Eratosthenes::new();
    while let Some(prime) = primes.next() {
        if prime < 10_000 {
            assert!(is_prime(prime));
        } else {
            break;
        }
    }
}

#[test]
fn first_five_primes() {
    let mut primes = Eratosthenes::new();
    let got: Vec<u32> = (0..5).map(|_| primes.next().unwrap()).collect();
    assert_eq!(got, vec![2, 3, 5, 7, 11]);
}

#[test]
fn sieve_skips_no_prime() {
    let mut primes = Eratosthenes::new();
    let mut expected = (2..20_000u32).filter(|&n| is_prime(n));
    loop {
        let p = primes.next().unwrap();
        if p >= 20_000 {
            assert_eq!(expected.next(), None);
            break;
        }
        assert_eq!(Some(p), expected.next());
    }
}

#[test]
fn independent_sieves_agree() {
    let mut a = Eratosthenes::new();
    let mut b = Eratosthenes::new();
    for _ in 0..1000 {
        assert_eq!(a.next(), b.next());
    }
    let mut c = Eratosthenes::new();
    assert_eq!(c.next(), Some(2));
}

#[test]
fn is_prime_on_large_values() {
    assert!(is_prime(65537));
    assert!(is_prime(4_294_967_291));
    assert!(!is_prime(u32::MAX));
    assert!(!is_prime(65521 * 65537));
    assert!(!is_prime(9));
    assert!(!is_prime(25));
    assert!(!is_prime(49));
}
