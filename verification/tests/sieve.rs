use mpqs::polynomial::{next_polynomial, Polynomial};
use mpqs::serial_MPQS::InitResult;
use mpqs::sieve::{
    classify, root_positions, sieve_block, sieve_polynomial, sieve_root, Candidate, SIEVE_SIZE,
};
use rug::Integer;

fn small_polynomial() -> Polynomial {
    // the polynomial of the root 3 for the number 91: 9 x^2 + 2 x - 10
    Polynomial {
        root: Integer::from(3),
        a: Integer::from(9),
        b: Integer::from(1),
        c: Integer::from(-10),
    }
}

fn first_polynomial_above(n: &Integer, start: u64) -> Polynomial {
    let mut cursor = Integer::from(start);
    loop {
        let (next, poly) = next_polynomial(n, &cursor);
        if let Some(poly) = poly {
            return poly;
        }
        cursor = next;
    }
}

fn value_at(poly: &Polynomial, x: i64) -> Integer {
    Integer::from(&poly.a * x) * x + Integer::from(&poly.b * x) * 2 + &poly.c
}

fn relation_holds(n: &Integer, x: &Integer, y: &Integer, a: &Integer) -> bool {
    let lhs = Integer::from(x * x);
    let rhs = Integer::from(a * a) * y;
    Integer::from(lhs - rhs).is_divisible(n)
}

#[test]
fn a_block_gets_the_weight_of_every_root_that_meets_it() {
    let fb: Vec<u64> = vec![2, 3, 5];
    let tlog: Vec<u32> = vec![10, 20, 30];
    let mut s1: Vec<i64> = vec![0, 1, 2];
    let mut s2: Vec<i64> = vec![1, 2, 2];
    let sbuf = sieve_block(&fb, &tlog, 3, 7, &mut s1, &mut s2);
    // 2 is below the least sieved prime; 3 hits 1, 4 and 2, 5; 5 hits 2 twice
    assert_eq!(sbuf, vec![0, 20, 80, 0, 20, 20, 0]);
    assert_eq!(s1, vec![0, 0, 0]);
    assert_eq!(s2, vec![1, 1, 0]);
}

#[test]
fn the_roots_are_carried_from_block_to_block() {
    let fb: Vec<u64> = vec![7];
    let tlog: Vec<u32> = vec![1];
    let mut s1: Vec<i64> = vec![3];
    let mut s2: Vec<i64> = vec![5];
    let first = sieve_block(&fb, &tlog, 0, 10, &mut s1, &mut s2);
    let second = sieve_block(&fb, &tlog, 0, 10, &mut s1, &mut s2);
    let mut joined = first.clone();
    joined.extend(second);
    for t in 0..20 {
        let expected = if t % 7 == 3 || t % 7 == 5 { 1 } else { 0 };
        assert_eq!(joined[t], expected, "position {}", t);
    }
}

#[test]
fn an_empty_block_moves_nothing() {
    let fb: Vec<u64> = vec![3];
    let tlog: Vec<u32> = vec![5];
    let mut s1: Vec<i64> = vec![1];
    let mut s2: Vec<i64> = vec![2];
    let sbuf = sieve_block(&fb, &tlog, 0, 0, &mut s1, &mut s2);
    assert!(sbuf.is_empty());
    assert_eq!(s1, vec![1]);
    assert_eq!(s2, vec![2]);
}

#[test]
fn the_root_positions_are_the_roots_of_the_polynomial() {
    let poly = small_polynomial();
    let fb: Vec<u64> = vec![2, 5, 7];
    let tsqrt = vec![Integer::from(0), Integer::from(1), Integer::from(0)];
    let (s1, s2) = root_positions(&poly, &fb, &tsqrt, 10).unwrap();
    assert_eq!(s1, vec![1, 0, 6]);
    assert_eq!(s2, vec![1, 2, 6]);
}

#[test]
fn a_prime_that_divides_the_leading_coefficient_stops_the_setup() {
    let poly = small_polynomial();
    let fb: Vec<u64> = vec![2, 3, 5];
    let tsqrt = vec![Integer::from(0), Integer::from(1), Integer::from(1)];
    assert!(root_positions(&poly, &fb, &tsqrt, 10).is_none());
}

#[test]
fn trial_division_sorts_the_positions() {
    let poly = small_polynomial();
    let n = Integer::from(91);
    let fb: Vec<u64> = vec![2, 3, 5];
    // Q(0) = -10, Q(1) = 1, Q(2) = 30, Q(5) = 225 are smooth
    for (x, lhs, y) in [(0, 1, -10), (1, 10, 1), (2, 19, 30), (5, 46, 225)] {
        match classify(&poly, &fb, 10, x) {
            Candidate::Full(rel) => {
                assert_eq!(rel.0, lhs);
                assert_eq!(rel.1 .0, y);
                assert_eq!(rel.1 .1, 3);
                assert!(relation_holds(&n, &rel.0, &rel.1 .0, &rel.1 .1));
            }
            _ => panic!("x = {} should give a full relation", x),
        }
    }
    // Q(3) = 77, Q(4) = 142 = 2 * 71, Q(10) = 910 = 2 * 5 * 91 leave a factor below 100
    for (x, large, lhs, y) in [(3, 77u64, 28, 77), (4, 71, 37, 142), (10, 91, 91, 910)] {
        match classify(&poly, &fb, 10, x) {
            Candidate::Partial(left, rel) => {
                assert_eq!(left, large);
                assert_eq!(rel.0, lhs);
                assert_eq!(rel.1 .0, y);
                assert_eq!(rel.1 .1, 3);
                assert!(relation_holds(&n, &rel.0, &rel.1 .0, &rel.1 .1));
            }
            _ => panic!("x = {} should give a partial relation", x),
        }
    }
    // Q(12) = 1310 = 2 * 5 * 131 leaves a factor above 100
    assert!(matches!(classify(&poly, &fb, 10, 12), Candidate::Discard));
    // Q(-1) = -3 is smooth and negative
    match classify(&poly, &fb, 10, -1) {
        Candidate::Full(rel) => {
            assert_eq!(rel.0, -8);
            assert_eq!(rel.1 .0, -3);
        }
        _ => panic!("x = -1 should give a full relation"),
    }
}

#[test]
fn the_large_prime_limit_is_the_square_of_the_bound() {
    let poly = small_polynomial();
    let fb: Vec<u64> = vec![2, 3, 5];
    // Q(3) = 77: a partial relation needs 77 < bound^2
    assert!(matches!(classify(&poly, &fb, 9, 3), Candidate::Partial(77, _)));
    assert!(matches!(classify(&poly, &fb, 8, 3), Candidate::Discard));
    assert!(matches!(classify(&poly, &fb, 0, 3), Candidate::Discard));
}

#[test]
fn a_value_of_zero_is_discarded() {
    let poly = Polynomial {
        root: Integer::from(1),
        a: Integer::from(1),
        b: Integer::from(0),
        c: Integer::from(-4),
    };
    let fb: Vec<u64> = vec![2, 3];
    assert!(matches!(classify(&poly, &fb, 10, 2), Candidate::Discard));
    assert!(matches!(classify(&poly, &fb, 10, -2), Candidate::Discard));
}

fn score_by_definition(init: &InitResult, s1: &[i64], s2: &[i64], t: i64) -> i64 {
    let mut score = 0;
    for i in 0..init.factorbase.len() {
        let p = init.factorbase[i] as i64;
        if init.factorbase[i] >= init.min_prime {
            if t % p == s1[i] {
                score += init.tlog[i] as i64;
            }
            if t % p == s2[i] {
                score += init.tlog[i] as i64;
            }
        }
    }
    score
}

#[test]
fn the_sieve_yields_what_the_definition_says() {
    let n = Integer::from(9986801107u64);
    let factorbase: Vec<u64> = mpqs::serial_MPQS::factor_base(&n, 40);
    assert_eq!(factorbase.len(), 7);
    let tsqrt: Vec<Integer> = factorbase
        .iter()
        .enumerate()
        .map(|(i, p)| {
            if i == 0 {
                Integer::from(0)
            } else {
                mpqs::tonelli_shanks::tonelli_shanks(&n, &Integer::from(*p))
            }
        })
        .collect();
    for (i, p) in factorbase.iter().enumerate().skip(1) {
        assert_eq!(Integer::from(&tsqrt[i] * &tsqrt[i]) % *p, Integer::from(&n % *p));
    }
    let init = InitResult {
        roota: Integer::from(3),
        factorbase: factorbase.clone(),
        tsqrt: tsqrt.clone(),
        xmax: 240 * 7,
        tlog: vec![30, 48, 85, 104, 123, 128, 136],
        thresh: 250,
        min_prime: 7,
        bound: 60000,
    };
    let poly = first_polynomial_above(&n, 100);
    let batch = sieve_polynomial(&poly, &init).unwrap();
    let (s1, s2) = root_positions(&poly, &factorbase, &tsqrt, init.xmax).unwrap();
    let mut fulls = Vec::new();
    let mut partials = Vec::new();
    for t in 0..=(2 * init.xmax) {
        if score_by_definition(&init, &s1, &s2, t) > init.thresh {
            let x = t - init.xmax;
            let y = value_at(&poly, x);
            let mut left = y.clone().abs();
            if left == 0 {
                continue;
            }
            for p in &factorbase {
                while left.is_divisible_u(*p as u32) {
                    left /= *p;
                }
            }
            let lhs = Integer::from(&poly.a * x) + &poly.b;
            if left == 1 {
                fulls.push((lhs, (y, poly.root.clone())));
            } else if left < 60000u64 * 60000 {
                partials.push((left.to_u64().unwrap(), (lhs, (y, poly.root.clone()))));
            }
        }
    }
    assert_eq!(batch.smooths, fulls);
    assert_eq!(batch.partials, partials);
    assert!(batch.smooths.len() + batch.partials.len() > 0);
    for rel in &batch.smooths {
        assert!(relation_holds(&n, &rel.0, &rel.1 .0, &rel.1 .1));
    }
    for (large, rel) in &batch.partials {
        assert!(relation_holds(&n, &rel.0, &rel.1 .0, &rel.1 .1));
        assert!(rel.1 .0.is_divisible_u(*large as u32));
    }
}

#[test]
fn the_interval_is_longer_than_one_block() {
    // the comparison above would not see a fault at a block boundary
    // in an interval shorter than a block
    assert!(2 * 240 * 7 + 1 < SIEVE_SIZE + 1);
    let n = Integer::from(9986801107u64);
    let mut factorbase: Vec<u64> = vec![2];
    let mut p = Integer::from(2);
    while factorbase.len() < 80 {
        p = p.next_prime();
        if n.legendre(&p) == 1 {
            factorbase.push(p.to_u64().unwrap());
        }
    }
    let tsqrt: Vec<Integer> = factorbase
        .iter()
        .enumerate()
        .map(|(i, p)| {
            if i == 0 {
                Integer::from(0)
            } else {
                mpqs::tonelli_shanks::tonelli_shanks(&n, &Integer::from(*p))
            }
        })
        .collect();
    let tlog: Vec<u32> = factorbase.iter().map(|p| ((*p as f64).log10() * 100.0) as u32).collect();
    let init = InitResult {
        roota: Integer::from(3),
        factorbase: factorbase.clone(),
        tsqrt: tsqrt.clone(),
        xmax: 240 * 80,
        tlog,
        thresh: 600,
        min_prime: 20,
        bound: 1000,
    };
    assert!(2 * init.xmax + 1 > SIEVE_SIZE + 1);
    let poly = first_polynomial_above(&n, 5000);
    let batch = sieve_polynomial(&poly, &init).unwrap();
    let (s1, s2) = root_positions(&poly, &factorbase, &tsqrt, init.xmax).unwrap();
    let mut expected = 0;
    for t in 0..=(2 * init.xmax) {
        if score_by_definition(&init, &s1, &s2, t) > init.thresh {
            let x = t - init.xmax;
            let y = value_at(&poly, x);
            let mut left = y.clone().abs();
            if left == 0 {
                continue;
            }
            for p in &factorbase {
                while left.is_divisible_u(*p as u32) {
                    left /= *p;
                }
            }
            if left < 1000 * 1000 {
                expected += 1;
            }
        }
    }
    assert!(expected > 0);
    assert_eq!(batch.smooths.len() + batch.partials.len(), expected);
    for rel in &batch.smooths {
        assert!(relation_holds(&n, &rel.0, &rel.1 .0, &rel.1 .1));
    }
}

#[test]
fn a_root_is_sieved_through_its_polynomial() {
    let n = Integer::from(9986801107u64);
    let factorbase: Vec<u64> = mpqs::serial_MPQS::factor_base(&n, 40);
    let tsqrt = mpqs::serial_MPQS::square_roots(&n, &factorbase);
    let init = InitResult {
        roota: Integer::from(3),
        factorbase: factorbase.clone(),
        tsqrt,
        xmax: 240 * 7,
        tlog: vec![30, 48, 85, 104, 123, 128, 136],
        thresh: 250,
        min_prime: 7,
        bound: 60000,
    };
    let poly = first_polynomial_above(&n, 100);
    let by_root = sieve_root(&n, &init, &poly.root).unwrap();
    let by_polynomial = sieve_polynomial(&poly, &init).unwrap();
    assert_eq!(by_root.smooths, by_polynomial.smooths);
    assert_eq!(by_root.partials, by_polynomial.partials);
    // 13 is in the factor base: its polynomial is degenerate
    assert!(sieve_root(&n, &init, &Integer::from(13)).is_none());
    // (n|5) = -1: no polynomial
    assert!(sieve_root(&n, &init, &Integer::from(5)).is_none());
}
