use mpqs::tonelli_shanks::tonelli_shanks;
use rug::Integer;

fn odd_primes_below_200() -> Vec<u64> {
    vec![
        3, 5, 7, 11, 13, 17, 19, 23, 29, 31, 37, 41, 43, 47, 53, 59, 61, 67, 71, 73, 79, 83, 89,
        97, 101, 103, 107, 109, 113, 127, 131, 137, 139, 149, 151, 157, 163, 167, 173, 179, 181,
        191, 193, 197, 199,
    ]
}

#[test]
fn tonelli_shanks_test_tonelli_shank() {
    let (n, p) = (Integer::from(23479349), Integer::from(23));
    assert_eq!(tonelli_shanks(&n, &p), Integer::from(12));
}

#[test]
fn every_residue_of_a_small_prime_gets_a_root() {
    for p in odd_primes_below_200() {
        let modulus = Integer::from(p);
        for n in 1..p {
            let residue = Integer::from(n);
            let root = tonelli_shanks(&residue, &modulus);
            if residue.legendre(&modulus) == 1 {
                assert!(root > 0 && root < modulus);
                assert_eq!(Integer::from(&root * &root) % &modulus, residue);
            } else {
                assert_eq!(root, 0);
            }
        }
    }
}

#[test]
fn a_multiple_of_the_prime_has_the_root_zero() {
    assert_eq!(tonelli_shanks(&Integer::from(0), &Integer::from(7)), 0);
    assert_eq!(tonelli_shanks(&Integer::from(91), &Integer::from(13)), 0);
    assert_eq!(tonelli_shanks(&Integer::from(4), &Integer::from(2)), 0);
}

#[test]
fn modulo_two_the_answer_is_two() {
    assert_eq!(tonelli_shanks(&Integer::from(1), &Integer::from(2)), 2);
    assert_eq!(tonelli_shanks(&Integer::from(3), &Integer::from(2)), 2);
    assert_eq!(tonelli_shanks(&Integer::from(9986801107u64), &Integer::from(2)), 2);
}

#[test]
fn a_non_residue_has_the_root_zero() {
    assert_eq!(tonelli_shanks(&Integer::from(3), &Integer::from(7)), 0);
    assert_eq!(tonelli_shanks(&Integer::from(2), &Integer::from(13)), 0);
}

#[test]
fn with_a_prime_of_the_form_4k_plus_3_the_root_is_a_power() {
    // 2^((7+1)/4) = 4 and 4 * 4 = 16 = 2 (mod 7)
    assert_eq!(tonelli_shanks(&Integer::from(2), &Integer::from(7)), 4);
    // 5^((19+1)/4) = 3125 = 9 (mod 19) and 81 = 5 (mod 19)
    assert_eq!(tonelli_shanks(&Integer::from(5), &Integer::from(19)), 9);
}

#[test]
fn with_a_prime_of_the_form_4k_plus_1_the_iteration_runs() {
    // s = 3, e = 2, z = 2: the iteration ends with x = 7
    assert_eq!(tonelli_shanks(&Integer::from(10), &Integer::from(13)), 7);
    let root = tonelli_shanks(&Integer::from(2), &Integer::from(65537));
    assert_eq!(Integer::from(&root * &root) % 65537, 2);
    let root = tonelli_shanks(&Integer::from(2), &Integer::from(257));
    assert_eq!(Integer::from(&root * &root) % 257, 2);
}

#[test]
fn the_number_is_reduced_before_the_root_is_taken() {
    let n = Integer::from(10 + 13 * 1000);
    assert_eq!(tonelli_shanks(&n, &Integer::from(13)), 7);
    let n = Integer::from(10 - 13 * 1000);
    assert_eq!(tonelli_shanks(&n, &Integer::from(13)), 7);
}

#[test]
fn a_composite_modulus_gets_a_root_or_zero() {
    for p in [9u32, 15, 21, 25, 35, 49, 91, 561] {
        for n in 1..p {
            let root = tonelli_shanks(&Integer::from(n), &Integer::from(p));
            assert!(root >= 0 && root < p);
            if root != 0 {
                assert_eq!(Integer::from(&root * &root) % p, n, "n = {}, p = {}", n, p);
            }
        }
    }
    // (2|15) = 1 but 2 is no square modulo 15
    assert_eq!(tonelli_shanks(&Integer::from(2), &Integer::from(15)), 0);
}

#[test]
fn a_prime_with_a_high_power_of_two_in_its_order_is_handled() {
    // 12289 = 3 * 2^12 + 1 and 40961 = 5 * 2^13 + 1
    for p in [12289u32, 40961] {
        let modulus = Integer::from(p);
        for n in 1..200u32 {
            let residue = Integer::from(n);
            let root = tonelli_shanks(&residue, &modulus);
            if residue.legendre(&modulus) == 1 {
                assert_eq!(Integer::from(&root * &root) % p, n);
            } else {
                assert_eq!(root, 0);
            }
        }
    }
}
