use mpqs::serial_MPQS::{
    factor_base, initialize_qs, mpqs, sieve_magnitude, square_roots, thresholds, LOG_SCALE,
};
use mpqs::{check_is_divisor, cofactor};
use rug::Integer;

fn fixed(x: f64) -> u32 {
    (x * LOG_SCALE as f64).round() as u32
}

fn bound_for(n: &Integer) -> u32 {
    (n.to_f64().log10().powi(2) * 5.0) as u32
}

fn factor(n: &Integer, max_polynomials: u64) -> Option<Integer> {
    let bound = bound_for(n);
    let fb = factor_base(n, bound);
    let tlog: Vec<u32> = fb.iter().map(|p| fixed((*p as f64).log10())).collect();
    let magnitude = sieve_magnitude(n, fb.len());
    let init = initialize_qs(n, bound, tlog, fixed(magnitude.to_f64().log10())).unwrap();
    mpqs(n, &init, max_polynomials)
}

#[test]
fn serial_MPQS_test_qs() {
    let n = "523022617466601111760007224100074291200000001"
        .parse::<Integer>()
        .unwrap();
    let ris = "14029308060317546154181".parse::<Integer>().unwrap();
    assert!(check_is_divisor(&n, &Some(ris)));
}

#[test]
fn serial_MPQS_test_qs_2() {
    let n = "9986801107".parse::<Integer>().unwrap();
    let found = factor(&n, 100_000);
    assert!(found.is_some());
    assert!(check_is_divisor(&n, &found));
}

#[test]
fn the_divisor_found_is_proper_and_its_cofactor_completes_it() {
    let n = "9986801107".parse::<Integer>().unwrap();
    let d = factor(&n, 100_000).unwrap();
    assert!(d > 1 && d < n);
    let q = cofactor(&n, &d).unwrap();
    assert_eq!(Integer::from(&d * &q), n);
    // 9986801107 = 99877 * 99991
    assert!(d == 99877 || d == 99991);
}

#[test]
fn a_semiprime_of_nineteen_digits_is_factored() {
    // 1000000007 * 2147483647
    let n = "2147483662032385529".parse::<Integer>().unwrap();
    let d = factor(&n, 100_000).unwrap();
    assert!(d == 1000000007 || d == 2147483647u32);
}

#[test]
fn a_number_of_45_digits_is_factored() {
    let n = "523022617466601111760007224100074291200000001"
        .parse::<Integer>()
        .unwrap();
    let d = factor(&n, 1_000_000).unwrap();
    let p = "14029308060317546154181".parse::<Integer>().unwrap();
    let q = "37280713718589679646221".parse::<Integer>().unwrap();
    assert!(d == p || d == q);
    assert!(check_is_divisor(&n, &Some(d)));
}

#[test]
fn the_square_of_a_prime_is_handled() {
    // 10007^2: every prime up to the bound is in the factor base, and the
    // first 65 polynomials are degenerate
    let n = "100140049".parse::<Integer>().unwrap();
    match factor(&n, 66) {
        Some(d) => assert_eq!(d, 10007),
        None => {}
    }
}

#[test]
fn without_polynomials_nothing_is_found() {
    let n = "9986801107".parse::<Integer>().unwrap();
    assert_eq!(factor(&n, 0), None);
}

#[test]
fn the_factor_base_holds_two_and_the_primes_with_symbol_one() {
    let n = "9986801107".parse::<Integer>().unwrap();
    let bound = bound_for(&n);
    assert_eq!(bound, 499);
    let fb = factor_base(&n, bound);
    let mut expected: Vec<u64> = vec![2];
    for p in 3..=499u64 {
        let prime = (2..p).all(|d| p % d != 0);
        if prime && n.legendre(&Integer::from(p)) == 1 {
            expected.push(p);
        }
    }
    assert_eq!(fb, expected);
}

#[test]
fn the_factor_base_stops_at_the_bound() {
    let n = Integer::from(91);
    // (91|3) = 1, (91|5) = 1, 7 divides 91, (91|11) = 1
    assert_eq!(factor_base(&n, 0), Vec::<u64>::new());
    assert_eq!(factor_base(&n, 1), Vec::<u64>::new());
    assert_eq!(factor_base(&n, 2), vec![2]);
    assert_eq!(factor_base(&n, 3), vec![2, 3]);
    assert_eq!(factor_base(&n, 10), vec![2, 3, 5]);
    assert_eq!(factor_base(&n, 11), vec![2, 3, 5, 11]);
}

#[test]
fn the_square_roots_are_roots() {
    let n = "9986801107".parse::<Integer>().unwrap();
    let fb = factor_base(&n, 499);
    let tsqrt = square_roots(&n, &fb);
    assert_eq!(tsqrt.len(), fb.len());
    assert_eq!(tsqrt[0], 0);
    for i in 1..fb.len() {
        assert!(tsqrt[i] > 0 && tsqrt[i] < fb[i]);
        assert_eq!(Integer::from(&tsqrt[i] * &tsqrt[i]) % fb[i], Integer::from(&n % fb[i]));
    }
}

#[test]
fn the_magnitude_is_half_the_root_times_the_width() {
    // isqrt(100) = 10 and M = 240
    assert_eq!(sieve_magnitude(&Integer::from(50), 1), 1200);
    // isqrt(2 * 91) = 13 and M = 720
    assert_eq!(sieve_magnitude(&Integer::from(91), 3), 4680);
    // isqrt(0) = 0
    assert_eq!(sieve_magnitude(&Integer::from(0), 5), 0);
    // an odd product is halved downwards: isqrt(18) = 4, M = 0
    assert_eq!(sieve_magnitude(&Integer::from(9), 0), 0);
}

#[test]
fn the_threshold_follows_the_formula() {
    let fb: Vec<u64> = vec![2, 3, 5, 7];
    let tlog: Vec<u32> = vec![19728, 31269, 45808, 55384];
    // raw = 655360 * 735 / 1000 = 481689, least prime = 3 * 481689 / 65536 = 22,
    // fudge = (19728 + 31269 + 45808 + 55384) / 4 = 38047
    assert_eq!(thresholds(&fb, &tlog, 655360), (443642, 22));
    // least prime = 3 * 73500 / 65536 = 3: only the logarithm of 2 is taken off
    assert_eq!(thresholds(&fb, &tlog, 100000), (73500 - 4932, 3));
    // a threshold below zero
    assert_eq!(thresholds(&fb, &tlog, 0), (0, 0));
    let heavy: Vec<u32> = vec![4000000000, 4000000000, 4000000000, 4000000000];
    assert_eq!(thresholds(&fb, &heavy, 655360), (481689 - 4000000000, 22));
}

#[test]
fn initialisation_fills_every_table() {
    let n = "9986801107".parse::<Integer>().unwrap();
    let bound = 499;
    let fb = factor_base(&n, bound);
    let k = fb.len();
    let tlog: Vec<u32> = fb.iter().map(|p| fixed((*p as f64).log10())).collect();
    let magnitude = sieve_magnitude(&n, k);
    let log_magnitude = fixed(magnitude.to_f64().log10());
    let init = initialize_qs(&n, bound, tlog.clone(), log_magnitude).unwrap();
    assert_eq!(init.factorbase, fb);
    assert_eq!(init.bound, bound);
    assert_eq!(init.tlog, tlog);
    assert_eq!(init.xmax, 240 * k as i64);
    assert_eq!(init.tsqrt, square_roots(&n, &fb));
    let (thresh, min_prime) = thresholds(&fb, &tlog, log_magnitude);
    assert_eq!(init.thresh, thresh);
    assert_eq!(init.min_prime, min_prime);
    // isqrt(isqrt(2 n) / M), made odd, and 3 at least
    let ratio = (Integer::from(&n * 2u32).sqrt() / (240 * k as u64)).sqrt();
    let odd = if ratio.is_even() { ratio + 1u32 } else { ratio };
    assert_eq!(init.roota, odd.max(Integer::from(3)));
}

#[test]
fn the_first_root_is_three_at_least() {
    let n = Integer::from(91);
    let fb = factor_base(&n, 11);
    let tlog: Vec<u32> = vec![1, 2, 3, 4];
    let init = initialize_qs(&n, 11, tlog, 100).unwrap();
    assert_eq!(init.factorbase, vec![2, 3, 5, 11]);
    assert_eq!(init.factorbase, fb);
    assert_eq!(init.roota, 3);
}

#[test]
fn initialisation_turns_bad_input_away() {
    let tlog: Vec<u32> = vec![1, 2, 3, 4];
    // too small, even
    assert!(initialize_qs(&Integer::from(3), 11, tlog.clone(), 100).is_none());
    assert!(initialize_qs(&Integer::from(-91), 11, tlog.clone(), 100).is_none());
    assert!(initialize_qs(&Integer::from(92), 11, tlog.clone(), 100).is_none());
    // a bound below 2 leaves the factor base empty
    assert!(initialize_qs(&Integer::from(91), 1, Vec::new(), 100).is_none());
    // one logarithm for each prime
    assert!(initialize_qs(&Integer::from(91), 11, vec![1, 2, 3], 100).is_none());
    assert!(initialize_qs(&Integer::from(91), 11, vec![1, 2, 3, 4, 5], 100).is_none());
    assert!(initialize_qs(&Integer::from(91), 11, tlog, 100).is_some());
}
