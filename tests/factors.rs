use primefactor::{
    factorize, primefactor_gcd, u128_gcd, u128_is_prime, u128_lcm, u128_sqrt, IntFactor,
    PrimeFactors,
};
use rand::Rng;

fn trial_is_prime(n: u128) -> bool {
    if n < 2 {
        return false;
    }
    let mut d: u128 = 2;
    while d * d <= n {
        if n % d == 0 {
            return false;
        }
        d += 1;
    }
    true
}

#[test]
fn test_int_sqrt_pow_of_2() {
    let mut rnd = rand::thread_rng();
    for _ in 1..1000 {
        let n = rnd.gen_range(1..u128_sqrt(u128::MAX));
        let sqrt = u128_sqrt(n.pow(2));
        assert_eq!(sqrt, n);
    }
}

#[test]
fn test_int_sqrt_floor() {
    let mut rnd = rand::thread_rng();
    for _ in 1..1000 {
        // Largest integer in a f64 is 2^53-1 (52 bits mantissa)
        let n = rnd.gen_range(1..u64::pow(2, 53) as u128);
        let expt = f64::sqrt(n as f64) as u128;
        let sqrt = u128_sqrt(n);
        assert_eq!(sqrt, expt);
    }
}

#[test]
fn sqrt_exact_values() {
    assert_eq!(u128_sqrt(0), 0);
    assert_eq!(u128_sqrt(1), 1);
    assert_eq!(u128_sqrt(2), 1);
    assert_eq!(u128_sqrt(3), 1);
    assert_eq!(u128_sqrt(4), 2);
    assert_eq!(u128_sqrt(1000), 31);
    assert_eq!(u128_sqrt(u128::MAX), u64::MAX as u128);
}

#[test]
fn test_1000th_prime_with_pw30() {
    let mut primes = 0;
    let mut prime = 0;
    for i in 0..7920 {
        if u128_is_prime(i as u128) {
            primes += 1;
            prime = i;
        }
    }
    assert_eq!(primes, 1000);
    assert_eq!(prime, 7919);
}

#[test]
fn test_1000th_prime_with_pw210() {
    let mut primes = 0;
    let mut prime = 0;
    for i in 0..7920 {
        if u128_is_prime(i as u128) {
            primes += 1;
            prime = i;
        }
    }
    assert_eq!(primes, 1000);
    assert_eq!(prime, 7919);
}

#[test]
fn test_test_is_prime() {
    for num in 2..=1000u64 {
        let prime = u128_is_prime(num as u128);
        assert_eq!(reikna::prime::is_prime(num), prime, "is num {} prime?", num);
    }
    for num in 1..1000u128 {
        let facts = PrimeFactors::from(num);
        let prime = facts.is_prime();
        assert_eq!(trial_is_prime(num), prime, "is num {} prime?", num);
        let sum: u128 = facts
            .to_factor_vec()
            .iter()
            .map(|fc| fc.integer.pow(fc.exponent))
            .product();
        assert_eq!(num, sum);
    }
}

#[test]
fn test_test_some_factors() {
    let mut rnd = rand::thread_rng();
    for _ in 0..1000 {
        let num = rnd.gen_range(2..u32::MAX as u128);
        let facts = PrimeFactors::from(num);
        assert_eq!(reikna::prime::is_prime(num as u64), facts.is_prime());
        if facts.is_prime() {
            let fe = &facts.to_vec();
            assert_eq!(fe.len(), 1);
            assert_eq!(fe[0], num);
        } else {
            assert_eq!(num, facts.value());
        }
    }
    for _ in 0..1000 {
        let num = rnd.gen_range(1..u32::MAX as u128);
        let facts = PrimeFactors::from(num);
        if facts.is_prime() {
            assert_eq!(trial_is_prime(num), true);
            let fe = &facts.to_factor_vec()[0];
            assert_eq!(fe.integer, num);
            assert_eq!(fe.exponent, 1);
        } else {
            let sum: u128 = facts
                .to_factor_vec()
                .iter()
                .map(|fc| fc.integer.pow(fc.exponent))
                .product();
            assert_eq!(num, sum);
        }
    }
}

#[test]
fn test_test_a_few_gcd() {
    assert_eq!(primefactor_gcd(2 * 3 * 5 * 7, 2 * 5 * 11), PrimeFactors::from(2 * 5));
    assert_eq!(primefactor_gcd(3 * 4 * 5, 3 * 4 * 7), PrimeFactors::from(3 * 4));
    assert_eq!(primefactor_gcd(9 * 4 * 11, 3 * 8 * 13), PrimeFactors::from(3 * 4));
    assert_eq!(primefactor_gcd(27 * 64 * 121, 9 * 32 * 49), PrimeFactors::from(9 * 32));
    let no_gcd = primefactor_gcd(3 * 7 * 13, 2 * 5 * 11);
    assert!(no_gcd.is_empty());
    assert!(primefactor_gcd(1, 1).is_empty());
    assert!(primefactor_gcd(1, 0).is_empty());
    assert!(primefactor_gcd(0, 1).is_empty());
    assert!(primefactor_gcd(0, 0).is_empty());
    assert_eq!(u128_gcd(2 * 3 * 5 * 7, 2 * 5 * 11), 2 * 5);
    assert_eq!(u128_gcd(3 * 4 * 5, 3 * 4 * 7), 3 * 4);
    assert_eq!(u128_gcd(9 * 4 * 11, 3 * 8 * 13), 3 * 4);
    assert_eq!(u128_gcd(27 * 64 * 121, 9 * 32 * 49), 9 * 32);
    assert_eq!(u128_gcd(1, 1), 1);
    assert_eq!(u128_gcd(1, 0), 1);
    assert_eq!(u128_gcd(0, 1), 1);
    assert_eq!(u128_gcd(0, 0), 0);
}

#[test]
fn test_compare_some_gcd() {
    let mut rnd = rand::thread_rng();
    for _ in 0..100 {
        let a = rnd.gen_range(2..u32::MAX as u128);
        let b = rnd.gen_range(2..u32::MAX as u128);
        let pf_gcd = primefactor_gcd(a, b);
        let ea_gcd = u128_gcd(a, b);
        if pf_gcd.is_empty() {
            assert_eq!(ea_gcd, 1);
        } else {
            assert_eq!(ea_gcd, pf_gcd.value());
        }
    }
}

#[test]
fn test_a_few_lcm() {
    assert_eq!(u128_lcm(2 * 3 * 5 * 7, 2 * 5 * 11), 2 * 3 * 5 * 7 * 11);
    assert_eq!(u128_lcm(3 * 4 * 5, 3 * 4 * 7), 3 * 4 * 5 * 7);
    assert_eq!(u128_lcm(9 * 4 * 11, 3 * 8 * 13), 8 * 9 * 11 * 13);
    assert_eq!(u128_lcm(27 * 64 * 121, 9 * 32 * 49), 27 * 64 * 49 * 121);
    assert_eq!(u128_lcm(3 * 7 * 13, 2 * 5 * 11), 2 * 3 * 5 * 7 * 11 * 13);
    assert_eq!(u128_lcm(1, 1), 1);
    assert_eq!(u128_lcm(0, 1), 0);
    assert_eq!(u128_lcm(1, 0), 0);
    assert_eq!(u128_lcm(0, 0), 0);
}

#[test]
fn test_some_gcd_lcm() {
    let mut rnd = rand::thread_rng();
    for _ in 0..10 {
        let a = rnd.gen_range(2..u32::MAX as u128);
        let b = rnd.gen_range(2..u32::MAX as u128);
        let c = rnd.gen_range(2..u32::MAX as u128);

        assert_eq!(u128_gcd(a, b) * u128_lcm(a, b), a * b);

        assert_eq!(u128_gcd(a, a), a);
        assert_eq!(u128_gcd(b, b), b);
        assert_eq!(u128_lcm(a, a), a);
        assert_eq!(u128_lcm(b, b), b);

        assert_eq!(u128_gcd(a, b), u128_gcd(b, a));
        assert_eq!(u128_lcm(a, b), u128_lcm(b, a));

        assert_eq!(u128_gcd(a, u128_lcm(a, b)), a);
        assert_eq!(u128_gcd(b, u128_lcm(a, b)), b);
        assert_eq!(u128_lcm(a, u128_gcd(a, b)), a);
        assert_eq!(u128_lcm(b, u128_gcd(a, b)), b);

        assert_eq!(u128_gcd(a, u128_gcd(b, c)), u128_gcd(u128_gcd(a, b), c));
        assert_eq!(u128_lcm(a, u128_lcm(b, c)), u128_lcm(u128_lcm(a, b), c));
    }
}

#[test]
fn test_compare_reikna_gcd_lcm() {
    let mut rnd = rand::thread_rng();
    for _ in 0..100 {
        let a = rnd.gen_range(2..u32::MAX as u64);
        let b = rnd.gen_range(2..u32::MAX as u64);
        let gcd_r = reikna::factor::gcd(a, b);
        let gcd_t = u128_gcd(a as u128, b as u128) as u64;
        assert_eq!(gcd_r, gcd_t);
        let lcm_r = reikna::factor::lcm(a, b);
        let lcm_t = u128_lcm(a as u128, b as u128) as u64;
        assert_eq!(lcm_r, lcm_t);
    }
}

#[test]
fn find_highest_32bit_prime() {
    let mut found: u128 = 0;
    for n in 0..5u32 {
        let num: u128 = (u32::MAX - n) as u128;
        if u128_is_prime(num) {
            println!("#{}: {} is a prime number", n, num);
            found = num;
        }
    }
    assert_eq!(found, 4294967291);
}

#[test]
fn factorize_360() {
    let f = factorize(360);
    assert_eq!(
        f.to_factor_vec(),
        &vec![
            IntFactor { integer: 2, exponent: 3 },
            IntFactor { integer: 3, exponent: 2 },
            IntFactor { integer: 5, exponent: 1 }
        ]
    );
    assert_eq!(f.value(), 360);
    assert_eq!(f.len(), 3);
    assert_eq!(f.count_factors(), 6);
    assert!(!f.is_prime());
    assert_eq!(f.to_vec(), vec![2, 2, 2, 3, 3, 5]);
}

#[test]
fn factorize_zero_and_one_are_empty() {
    assert!(factorize(0).is_empty());
    assert!(factorize(1).is_empty());
    assert_eq!(factorize(0).value(), 1);
    assert_eq!(factorize(1).count_factors(), 0);
    assert!(!factorize(1).is_prime());
}

#[test]
fn factorize_primes_and_large_values() {
    let p = factorize(4294967291);
    assert!(p.is_prime());
    assert_eq!(p.to_vec(), vec![4294967291]);
    let c = factorize(4294967292);
    assert!(!c.is_prime());
    assert_eq!(c.value(), 4294967292);
    assert!(u128_is_prime(4294967291));
    assert!(!u128_is_prime(4294967292));
    let big = factorize(1u128 << 127);
    assert_eq!(big.to_factor_vec(), &vec![IntFactor { integer: 2, exponent: 127 }]);
    assert_eq!(big.value(), 1u128 << 127);
    let sq = factorize(65521u128 * 65521);
    assert_eq!(sq.to_factor_vec(), &vec![IntFactor { integer: 65521, exponent: 2 }]);
    assert!(u128_is_prime(2));
    assert!(u128_is_prime(211));
    assert!(!u128_is_prime(221));
    assert!(!u128_is_prime(0));
    assert!(!u128_is_prime(1));
}

#[test]
fn round_trip_and_primality_agree() {
    for n in 0..3000u128 {
        let f = factorize(n);
        if n >= 2 {
            assert_eq!(f.value(), n);
        } else {
            assert!(f.is_empty());
        }
        assert_eq!(f.is_prime(), u128_is_prime(n));
        assert_eq!(u128_is_prime(n), trial_is_prime(n));
    }
}

#[test]
fn gcd_factored_scenarios() {
    assert_eq!(primefactor_gcd(210, 110), factorize(10));
    let g = factorize(2 * 2 * 2 * 3 * 7).gcd(&factorize(2 * 2 * 3 * 3 * 11));
    assert_eq!(
        g.to_factor_vec(),
        &vec![IntFactor { integer: 2, exponent: 2 }, IntFactor { integer: 3, exponent: 1 }]
    );
    assert_eq!(g.value(), 12);
    assert!(factorize(0).gcd(&factorize(12)).is_empty());
    assert!(factorize(12).gcd(&factorize(1)).is_empty());
    for a in 1..60u128 {
        for b in 1..60u128 {
            let g = primefactor_gcd(a, b);
            if g.is_empty() {
                assert_eq!(u128_gcd(a, b), 1);
            } else {
                assert_eq!(g.value(), u128_gcd(a, b));
            }
        }
    }
}

#[test]
fn gcd_lcm_small_laws() {
    for a in 1..40u128 {
        for b in 1..40u128 {
            assert_eq!(u128_gcd(a, b), u128_gcd(b, a));
            assert_eq!(u128_lcm(a, b), u128_lcm(b, a));
            assert_eq!(u128_gcd(a, b) * u128_lcm(a, b), a * b);
            assert_eq!(u128_gcd(a, u128_lcm(a, b)), a);
            assert_eq!(u128_lcm(a, u128_gcd(a, b)), a);
            for c in 1..10u128 {
                assert_eq!(u128_gcd(a, u128_gcd(b, c)), u128_gcd(u128_gcd(a, b), c));
                assert_eq!(u128_lcm(a, u128_lcm(b, c)), u128_lcm(u128_lcm(a, b), c));
            }
        }
    }
    assert_eq!(u128_gcd(12, 18), 6);
    assert_eq!(u128_lcm(12, 18), 36);
    assert_eq!(u128_gcd(0, 7), 7);
    assert_eq!(u128_lcm(0, 7), 0);
}

#[test]
fn factor_cursor_and_int_factor() {
    let f = factorize(2 * 2 * 3 * 5 * 5 * 5);
    let mut it = f.iter();
    assert_eq!(it.next(), Some(IntFactor { integer: 2, exponent: 2 }));
    assert_eq!(it.next(), Some(IntFactor { integer: 3, exponent: 1 }));
    assert_eq!(it.next(), Some(IntFactor { integer: 5, exponent: 3 }));
    assert_eq!(it.next(), None);
    assert_eq!(it.next(), None);
    assert_eq!(IntFactor { integer: 7, exponent: 3 }.to_vec(), vec![7, 7, 7]);
    assert!(IntFactor { integer: 7, exponent: 0 }.to_vec().is_empty());
}

#[test]
fn text_of_factors() {
    assert_eq!(factorize(360).to_string(), "2^3 * 3^2 * 5");
    assert_eq!(factorize(4294967291).to_string(), "4294967291");
    assert_eq!(factorize(1).to_string(), "");
    assert_eq!(factorize(1024).to_string(), "2^10");
    assert_eq!(factorize(2 * 3 * 1000003).to_string(), "2 * 3 * 1000003");
    assert_eq!(IntFactor { integer: 10, exponent: 12 }.to_string(), "10^12");
    assert_eq!(IntFactor { integer: 0, exponent: 1 }.to_string(), "0");
}

#[test]
fn from_agrees_with_factorize() {
    assert_eq!(
        PrimeFactors::from(360).to_factor_vec(),
        &vec![
            IntFactor { integer: 2, exponent: 3 },
            IntFactor { integer: 3, exponent: 2 },
            IntFactor { integer: 5, exponent: 1 }
        ]
    );
    for n in 0..500u128 {
        assert_eq!(PrimeFactors::from(n), factorize(n));
        assert_eq!(PrimeFactors::from(n).is_empty(), n < 2);
    }
}
