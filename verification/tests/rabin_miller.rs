use mpqs::rabin_miller::is_rabin_miller_prime;
use rug::Integer;

#[test]
fn test_is_prime() {
    let pairs: Vec<(u64, bool)> = vec![
        (1, false),
        (2, true),
        (3, true),
        (4, false),
        (5, true),
        (123123423467, false),
        (4373, true),
        (1048576, false),
    ];

    for (n, r) in pairs {
        assert_eq!(is_rabin_miller_prime(&Integer::from(n)), r);
    }
}

#[test]
fn zero_and_negative_numbers_are_not_prime() {
    assert!(!is_rabin_miller_prime(&Integer::from(0)));
    assert!(!is_rabin_miller_prime(&Integer::from(-7)));
}

#[test]
fn the_test_agrees_with_trial_division_below_2000() {
    for n in 0u64..2000 {
        let mut prime = n >= 2;
        let mut d = 2;
        while d * d <= n {
            if n % d == 0 {
                prime = false;
            }
            d += 1;
        }
        assert_eq!(is_rabin_miller_prime(&Integer::from(n)), prime, "n = {}", n);
    }
}

#[test]
fn carmichael_numbers_are_composite() {
    for n in [561u64, 1105, 1729, 2465, 2821, 6601, 8911, 41041, 825265] {
        assert!(!is_rabin_miller_prime(&Integer::from(n)));
    }
}

#[test]
fn the_least_pseudoprime_of_each_witness_set_is_composite() {
    // each of these passes the test with the witnesses of the range below it
    let limits = [
        "1373653",
        "25326001",
        "3215031751",
        "2152302898747",
        "3474749660383",
        "341550071728321",
        "3825123056546413051",
        "318665857834031151167461",
        "3317044064679887385961981",
    ];
    for text in limits {
        let n = text.parse::<Integer>().unwrap();
        assert!(!is_rabin_miller_prime(&n), "n = {}", text);
    }
}

#[test]
fn large_primes_are_prime() {
    for text in [
        "1000000007",
        "1000000000000000009",
        "170141183460469231731687303715884105727",
        "14029308060317546154181",
    ] {
        let n = text.parse::<Integer>().unwrap();
        assert!(is_rabin_miller_prime(&n), "n = {}", text);
    }
}

#[test]
fn large_composites_are_composite() {
    for text in [
        "9986801107",
        "523022617466601111760007224100074291200000001",
        "340282366920938463463374607431768211457",
    ] {
        let n = text.parse::<Integer>().unwrap();
        assert!(!is_rabin_miller_prime(&n), "n = {}", text);
    }
}
