use algoritmoi::moebius::{isqrt, moebius_inversion, moebius_from_sums};

#[test]
fn isqrt_values() {
    assert_eq!(isqrt(0), 0);
    assert_eq!(isqrt(1), 1);
    assert_eq!(isqrt(3), 1);
    assert_eq!(isqrt(4), 2);
    assert_eq!(isqrt(99), 9);
    assert_eq!(isqrt(100), 10);
    assert_eq!(isqrt(10_000_000_019), 100000);
}

#[test]
fn recovers_the_constant_one_function() {
    // f(x) = 1 has summatory g(m) = sum over k of f(m/k) = m
    for n in [1usize, 2, 3, 10, 30, 100, 1000] {
        assert_eq!(moebius_inversion(n, |x: usize| x as i64), 1);
    }
}

#[test]
fn recovers_the_identity_function() {
    // f(x) = x has the divisor-sum summatory g(m) = sum of floor(m/k)
    let g = |x: usize| -> i64 {
        let mut acc: i64 = 0;
        let mut k: usize = 1;
        while k <= x {
            acc += (x / k) as i64;
            k += 1;
        }
        acc
    };
    for n in [1usize, 2, 7, 50, 300] {
        assert_eq!(moebius_inversion(n, g), n as i64);
    }
}

#[test]
fn from_sums_matches_the_closure_path() {
    let n: usize = 500;
    let sq = isqrt(n);
    let mut glow: Vec<i64> = vec![0];
    for x in 1..=sq {
        glow.push(x as i64);
    }
    let mut ghigh: Vec<i64> = vec![0];
    for d in 1..=sq {
        ghigh.push((n / d) as i64);
    }
    assert_eq!(moebius_from_sums(n, sq, &glow, &ghigh), 1);
}
