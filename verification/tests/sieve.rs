use algoritmoi::sieve::Sieve;

#[test]
fn factor_28_gives_prime_powers_in_order() {
    let s = Sieve::sieve_to(30);
    let f = s.factor(28);
    assert_eq!(f, vec![(2, 2), (7, 1)]);
}

#[test]
fn divisors_of_12() {
    let s = Sieve::sieve_to(30);
    let mut d = s.divisors(12);
    d.sort();
    assert_eq!(d, vec![1, 2, 3, 4, 6, 12]);
}

#[test]
fn factor_of_one_is_empty() {
    let s = Sieve::new(10);
    assert_eq!(s.factor(1), vec![]);
    assert_eq!(s.divisors(1), vec![1]);
}

#[test]
fn factorizations_multiply_back() {
    let s = Sieve::sieve_to(1000);
    for n in 1..=1000 {
        let f = s.factor(n);
        let mut prod: usize = 1;
        for &(p, k) in f.iter() {
            for _ in 0..k {
                prod *= p;
            }
            assert!(k >= 1);
        }
        assert_eq!(prod, n);
    }
}

#[test]
fn divisor_lists_are_exact() {
    let s = Sieve::sieve_to(200);
    for n in 1..=200 {
        let d = s.divisors(n);
        for &x in d.iter() {
            assert!(x >= 1 && n % x == 0);
        }
        for x in 1..=n {
            if n % x == 0 {
                assert!(d.contains(&x));
            }
        }
        let mut sorted = d.clone();
        sorted.sort();
        sorted.dedup();
        assert_eq!(sorted.len(), d.len());
    }
}

#[test]
fn divisor_count_is_product_of_exponents_plus_one() {
    let s = Sieve::sieve_to(360);
    for n in 1..=360 {
        let f = s.factor(n);
        let expected: usize = f.iter().map(|&(_, k)| k + 1).product();
        assert_eq!(s.divisors(n).len(), expected);
    }
}

#[test]
fn prime_list_up_to_30() {
    let (s, primes) = Sieve::sieve_to_list(30);
    assert_eq!(primes, vec![2, 3, 5, 7, 11, 13, 17, 19, 23, 29]);
    assert_eq!(s.factor(30), vec![(2, 1), (3, 1), (5, 1)]);
}
