use primefactor::candidates::{is_pw210_candidate, is_pw210_candidate_b, PrimeWheel210, PrimeWheel30};
use primefactor::u128_is_prime;

const SPOKES_210: [u128; 48] = [
    11, 13, 17, 19, 23, 29, 31, 37, 41, 43, 47, 53, 59, 61, 67, 71, 73, 79, 83, 89, 97, 101, 103,
    107, 109, 113, 121, 127, 131, 137, 139, 143, 149, 151, 157, 163, 167, 169, 173, 179, 181, 187,
    191, 193, 197, 199, 209, 211,
];

#[test]
fn test_spokes() {
    for n in 8..212u128 {
        assert_eq!(SPOKES_210.contains(&n), is_pw210_candidate(n));
    }
}

#[test]
fn test_bitmaps() {
    for n in 0..210u128 {
        assert_eq!(is_pw210_candidate(n), is_pw210_candidate_b(n));
    }
}

#[test]
fn test_maybe_prime_generator() {
    let testvec: Vec<u128> = vec![
        2, 3, 5, 7, 11, 13, 17, 19, 23, 29, 31, 37, 41, 43, 47, 49, 53, 59, 61, 67, 71, 73, 77, 79,
        83, 89, 91, 97, 101, 103, 107, 109, 113,
    ];
    let mut mp = PrimeWheel30::new();
    for i in 0..testvec.len() {
        let p = mp.next().unwrap();
        assert_eq!(testvec[i], p);
    }
}

#[test]
fn test_early_prime_wheel_30_numbers() {
    let testvec: Vec<u128> = vec![
        2, 3, 5, 7, 11, 13, 17, 19, 23, 29, 31, 37, 41, 43, 47, 49, 53, 59, 61, 67, 71, 73, 77, 79,
        83, 89, 91, 97, 101, 103, 107, 109, 113,
    ];
    let mut mp = PrimeWheel30::new();
    for i in 0..testvec.len() {
        let p = mp.next().unwrap();
        assert_eq!(testvec[i], p);
    }
}

#[test]
fn test_early_prime_wheel_210_numbers() {
    let testvec: Vec<u128> = vec![
        2, 3, 5, 7, 11, 13, 17, 19, 23, 29, 31, 37, 41, 43, 47, 53, 59, 61, 67, 71, 73, 79, 83, 89,
        97, 101, 103, 107, 109, 113, 121, 127, 131, 137, 139, 143, 149, 151, 157, 163, 167, 169,
        173, 179, 181, 187, 191, 193, 197, 199, 209, 211, 221, 223, 227, 229, 233, 239, 241, 247,
        251, 253, 257, 263, 269, 271, 277, 281, 283, 289, 293, 299, 307, 311, 313,
    ];
    let mut mp = PrimeWheel210::new();
    for i in 0..testvec.len() {
        let p = mp.next().unwrap();
        assert_eq!(testvec[i], p);
        assert!(is_pw210_candidate(p));
    }
}

#[test]
fn test_prime_wheel_30_quality() {
    let mut primes: u128 = 0;
    let mut others: u128 = 0;
    let mut mp = PrimeWheel30::new();
    for _ in 0..1000000 {
        let p = mp.next().unwrap();
        if u128_is_prime(p) {
            primes += 1;
        } else {
            others += 1;
        }
    }
    let percent = primes as f64 / (primes + others) as f64 * 100.0;
    println!("Prime wheel generated {}/{} ({:.3}%) primes", primes, primes + others, percent);
    assert!(percent > 25.0);
}

#[test]
fn test_prime_wheel_210_quality() {
    let mut primes: u128 = 0;
    let mut others: u128 = 0;
    let mut mp = PrimeWheel210::new();
    for _ in 0..1000000 {
        let p = mp.next().unwrap();
        if u128_is_prime(p) {
            primes += 1;
        } else {
            others += 1;
        }
    }
    let percent = primes as f64 / (primes + others) as f64 * 100.0;
    println!("Prime wheel generated {}/{} ({:.3}%) primes", primes, primes + others, percent);
    assert!(percent > 30.0);
}

#[test]
fn wheel_210_candidates_are_members() {
    let mut mp = PrimeWheel210::new();
    for _ in 0..5000 {
        let p = mp.next().unwrap();
        assert!(is_pw210_candidate(p));
        assert!(is_pw210_candidate_b(p));
    }
}

#[test]
fn wheel_210_members_are_candidates() {
    let mut mp = PrimeWheel210::new();
    let mut next = mp.next().unwrap();
    for n in 0..20000u128 {
        if n == next {
            next = mp.next().unwrap();
            assert!(is_pw210_candidate(n));
        } else {
            assert!(!is_pw210_candidate(n), "{} is no candidate", n);
        }
    }
}

#[test]
fn wheel_30_second_turn_restarts_at_37() {
    let mut mp = PrimeWheel30::new();
    let first: Vec<u128> = (0..14).map(|_| mp.next().unwrap()).collect();
    assert_eq!(first[10], 31);
    assert_eq!(first[11], 37);
    assert_eq!(first[12], 41);
    let mut fresh = PrimeWheel30::new();
    assert_eq!(fresh.next(), Some(2));
}

#[test]
fn membership_small_values() {
    for n in 0..11u128 {
        let expected = n == 2 || n == 3 || n == 5 || n == 7;
        assert_eq!(is_pw210_candidate(n), expected);
        assert_eq!(is_pw210_candidate_b(n), expected);
    }
    assert!(!is_pw210_candidate(u128::MAX));
    assert!(!is_pw210_candidate_b(u128::MAX));
    assert_eq!(is_pw210_candidate(211), true);
    assert_eq!(is_pw210_candidate(210 * 5 + 1), true);
    assert_eq!(is_pw210_candidate(210 * 5 + 7), false);
}
