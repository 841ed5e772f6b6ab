use mpqs::polynomial::{lift_root, next_polynomial, next_root, polynomial_for, seek_root};
use rug::Integer;

#[test]
fn the_polynomial_of_a_small_root_is_exact() {
    // 91 = 1 (mod 3), b0 = 1, the inverse of 2 is 2, b = (1 + 90 * 2) mod 9 = 1
    let poly = polynomial_for(&Integer::from(91), &Integer::from(3)).unwrap();
    assert_eq!(poly.root, 3);
    assert_eq!(poly.a, 9);
    assert_eq!(poly.b, 1);
    assert_eq!(poly.c, -10);
}

#[test]
fn a_root_below_three_has_no_polynomial() {
    assert!(polynomial_for(&Integer::from(91), &Integer::from(2)).is_none());
    assert!(polynomial_for(&Integer::from(91), &Integer::from(1)).is_none());
    assert!(polynomial_for(&Integer::from(91), &Integer::from(-5)).is_none());
}

#[test]
fn a_root_modulo_which_the_number_is_no_square_has_no_polynomial() {
    // 91 = 6 (mod 17) and 6 is no square modulo 17
    assert!(polynomial_for(&Integer::from(91), &Integer::from(17)).is_none());
    // 13 divides 91
    assert!(polynomial_for(&Integer::from(91), &Integer::from(13)).is_none());
}

#[test]
fn every_polynomial_of_the_generator_fits_the_number() {
    let n = "523022617466601111760007224100074291200000001"
        .parse::<Integer>()
        .unwrap();
    let mut cursor = Integer::from(1_000_003);
    let mut found = 0;
    for _ in 0..200 {
        let (next, poly) = next_polynomial(&n, &cursor);
        assert!(next > cursor);
        if let Some(poly) = poly {
            found += 1;
            assert_eq!(poly.root, next);
            assert_eq!(n.legendre(&poly.root), 1);
            assert_eq!(poly.a, Integer::from(&poly.root * &poly.root));
            assert!(poly.b >= 0 && poly.b < poly.a);
            let excess = Integer::from(&poly.b * &poly.b) - &n;
            assert!(excess.is_divisible(&poly.a));
            assert_eq!(Integer::from(&poly.a * &poly.c), excess);
        } else {
            assert_ne!(n.legendre(&next), 1);
        }
        cursor = next;
    }
    assert!(found > 50);
}

#[test]
fn the_generator_never_gives_a_root_twice() {
    let n = Integer::from(9986801107u64);
    let mut cursor = Integer::from(3);
    let mut roots: Vec<Integer> = Vec::new();
    for _ in 0..500 {
        let (next, _) = next_polynomial(&n, &cursor);
        assert!(roots.iter().all(|seen| *seen < next));
        roots.push(next.clone());
        cursor = next;
    }
}

#[test]
fn the_generator_steps_from_prime_to_prime() {
    let n = Integer::from(91);
    let (next, poly) = next_polynomial(&n, &Integer::from(3));
    // (91|5) = 1
    assert_eq!(next, 5);
    assert!(poly.is_some());
    let (next, poly) = next_polynomial(&n, &next);
    // 7 divides 91
    assert_eq!(next, 7);
    assert!(poly.is_none());
}

#[test]
fn a_root_is_accepted_when_the_symbol_is_one() {
    let n = Integer::from(91);
    // (91|5) = 1, 7 divides 91, (91|11) = 1, 13 divides 91, (91|17) = -1
    let mut cursor = Integer::from(3);
    for (root, accepted) in [(5, true), (7, false), (11, true), (13, false), (17, false)] {
        let (next, ok) = next_root(&n, &cursor);
        assert_eq!(next, root);
        assert_eq!(ok, accepted);
        cursor = next;
    }
}

#[test]
fn an_odd_prime_has_a_polynomial_exactly_when_the_symbol_is_one() {
    let n = Integer::from(9986801107u64);
    let mut p = Integer::from(2);
    for _ in 0..300 {
        p = p.next_prime();
        let poly = polynomial_for(&n, &p);
        assert_eq!(poly.is_some(), n.legendre(&p) == 1, "p = {}", p);
    }
}

#[test]
fn a_square_root_is_lifted_to_the_square_of_the_modulus() {
    // 91 = 1 (mod 5), and 4 * 4 = 16 = 1 (mod 5); the inverse of 8 modulo 5 is 2,
    // b = (4 - (16 - 91) * 2) mod 25 = 154 mod 25 = 4, c = (16 - 91) / 25 = -3
    let poly = lift_root(&Integer::from(91), &Integer::from(5), &Integer::from(4)).unwrap();
    assert_eq!(poly.root, 5);
    assert_eq!(poly.a, 25);
    assert_eq!(poly.b, 4);
    assert_eq!(poly.c, -3);
    // the other root, 1: b = (1 + 90 * 3) mod 25 = 21, c = (441 - 91) / 25 = 14
    let poly = lift_root(&Integer::from(91), &Integer::from(5), &Integer::from(1)).unwrap();
    assert_eq!(poly.b, 21);
    assert_eq!(poly.c, 14);
}

#[test]
fn what_is_no_square_root_is_not_lifted() {
    // 2 * 2 = 4 is not 91 = 1 (mod 5)
    assert!(lift_root(&Integer::from(91), &Integer::from(5), &Integer::from(2)).is_none());
    // the modulus is below 3
    assert!(lift_root(&Integer::from(91), &Integer::from(2), &Integer::from(1)).is_none());
}

#[test]
fn a_root_whose_double_has_no_inverse_is_not_lifted() {
    // 3 * 3 = 9 = 0 = 18 (mod 9), and twice 3 shares the factor 3 with 9
    assert!(lift_root(&Integer::from(18), &Integer::from(9), &Integer::from(3)).is_none());
    // 15 = 0 (mod 15): the root 0 squares to it, and twice 0 has no inverse
    assert!(lift_root(&Integer::from(15), &Integer::from(15), &Integer::from(0)).is_none());
}

#[test]
fn the_search_stops_at_the_first_accepted_root() {
    let n = Integer::from(91);
    // above 5: 7 divides 91 and is turned away, (91|11) = 1
    assert_eq!(seek_root(&n, &Integer::from(5), 10), (Integer::from(11), true));
    // above 11: 13 divides 91, and 17, 19 and 23 have the symbol -1; (91|29) = 1
    assert_eq!(seek_root(&n, &Integer::from(11), 5), (Integer::from(29), true));
    // two steps are not enough
    assert_eq!(seek_root(&n, &Integer::from(11), 2), (Integer::from(17), false));
    // without a step the cursor stays
    assert_eq!(seek_root(&n, &Integer::from(11), 0), (Integer::from(11), false));
}
