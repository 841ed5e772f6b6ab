use mpqs::serial_MPQS::{factor_base, sieve_magnitude, LOG_SCALE};
use mpqs::{
    check_is_divisor, cofactor, factor, modular_inv, parse_number, validate, InvalidInput,
};
use rug::Integer;

#[test]
fn a_text_of_digits_is_a_number() {
    assert_eq!(parse_number(b"0"), Ok(Integer::from(0)));
    assert_eq!(parse_number(b"007"), Ok(Integer::from(7)));
    assert_eq!(parse_number(b"9986801107"), Ok(Integer::from(9986801107u64)));
    let text = "523022617466601111760007224100074291200000001";
    assert_eq!(parse_number(text.as_bytes()), Ok(text.parse::<Integer>().unwrap()));
}

#[test]
fn anything_else_is_not_a_number() {
    assert_eq!(parse_number(b""), Err(InvalidInput::NotANumber));
    assert_eq!(parse_number(b"-5"), Err(InvalidInput::NotANumber));
    assert_eq!(parse_number(b"12a"), Err(InvalidInput::NotANumber));
    assert_eq!(parse_number(b"1 2"), Err(InvalidInput::NotANumber));
    assert_eq!(parse_number(b"/"), Err(InvalidInput::NotANumber));
    assert_eq!(parse_number(b":"), Err(InvalidInput::NotANumber));
}

#[test]
fn small_and_even_numbers_are_turned_away() {
    assert_eq!(validate(&Integer::from(-9)), Err(InvalidInput::TooSmall));
    assert_eq!(validate(&Integer::from(0)), Err(InvalidInput::TooSmall));
    assert_eq!(validate(&Integer::from(3)), Err(InvalidInput::TooSmall));
    assert_eq!(validate(&Integer::from(4)), Err(InvalidInput::Even));
    assert_eq!(validate(&Integer::from(9986801108u64)), Err(InvalidInput::Even));
}

#[test]
fn a_prime_is_turned_away_before_the_sieve() {
    assert_eq!(validate(&Integer::from(5)), Err(InvalidInput::Prime));
    let n = "1000000000000000009".parse::<Integer>().unwrap();
    assert_eq!(validate(&n), Err(InvalidInput::Prime));
}

#[test]
fn an_odd_composite_is_accepted() {
    assert_eq!(validate(&Integer::from(9)), Ok(()));
    assert_eq!(validate(&Integer::from(9986801107u64)), Ok(()));
    let n = "523022617466601111760007224100074291200000001"
        .parse::<Integer>()
        .unwrap();
    assert_eq!(validate(&n), Ok(()));
}

#[test]
fn divisor_times_cofactor_is_the_number() {
    let n = "523022617466601111760007224100074291200000001"
        .parse::<Integer>()
        .unwrap();
    let d = "14029308060317546154181".parse::<Integer>().unwrap();
    let q = cofactor(&n, &d).unwrap();
    assert_eq!(q, "37280713718589679646221".parse::<Integer>().unwrap());
    assert_eq!(Integer::from(&d * &q), n);
    assert_eq!(cofactor(&Integer::from(91), &Integer::from(7)), Some(Integer::from(13)));
    assert_eq!(cofactor(&Integer::from(-91), &Integer::from(7)), Some(Integer::from(-13)));
}

#[test]
fn what_does_not_divide_has_no_cofactor() {
    assert_eq!(cofactor(&Integer::from(91), &Integer::from(6)), None);
    assert_eq!(cofactor(&Integer::from(91), &Integer::from(0)), None);
    assert_eq!(cofactor(&Integer::from(91), &Integer::from(-6)), None);
}

#[test]
fn a_negative_divisor_has_a_negative_cofactor() {
    assert_eq!(cofactor(&Integer::from(91), &Integer::from(-7)), Some(Integer::from(-13)));
    assert_eq!(cofactor(&Integer::from(77), &Integer::from(-7)), Some(Integer::from(-11)));
    assert_eq!(cofactor(&Integer::from(-77), &Integer::from(-7)), Some(Integer::from(11)));
}

#[test]
fn the_outcome_of_a_factorisation_is_checked() {
    let n = Integer::from(91);
    assert!(check_is_divisor(&n, &Some(Integer::from(13))));
    assert!(!check_is_divisor(&n, &Some(Integer::from(12))));
    assert!(!check_is_divisor(&n, &Some(Integer::from(0))));
    // a divisor counts whatever its sign
    assert!(check_is_divisor(&Integer::from(77), &Some(Integer::from(-7))));
    // no divisor found: only right when the number is prime
    assert!(!check_is_divisor(&n, &None));
    assert!(check_is_divisor(&Integer::from(97), &None));
}

#[test]
fn the_modular_inverse_of_three_modulo_seven_is_five() {
    assert_eq!(modular_inv(Integer::from(3), Integer::from(7)), 5);
    // 5 * 5 = 25 = 1 (mod 12)
    assert_eq!(modular_inv(Integer::from(5), Integer::from(12)), 5);
    // 10 * 12 = 120 = 1 (mod 17)
    assert_eq!(modular_inv(Integer::from(10), Integer::from(17)), 12);
}

#[test]
fn the_modular_inverse_is_an_inverse_in_range() {
    for m in 2u32..60 {
        for a in 1u32..200 {
            if Integer::from(a).gcd(&Integer::from(m)) == 1 {
                let r = modular_inv(Integer::from(a), Integer::from(m));
                assert!(r >= 0 && r < m, "a = {}, m = {}", a, m);
                assert_eq!(Integer::from(&r * a) % m, 1, "a = {}, m = {}", a, m);
                assert_eq!(Some(r), Integer::from(a).invert(&Integer::from(m)).ok());
            }
        }
    }
}

#[test]
fn the_modular_inverse_at_the_edges() {
    // modulo 1 every number is 0
    assert_eq!(modular_inv(Integer::from(5), Integer::from(1)), 0);
    assert_eq!(modular_inv(Integer::from(1), Integer::from(9)), 1);
    // -4 = 5 (mod 9), and 5 * 2 = 10 = 1 (mod 9)
    assert_eq!(modular_inv(Integer::from(-4), Integer::from(9)), 2);
    // a number above the modulus is reduced first
    assert_eq!(modular_inv(Integer::from(24), Integer::from(7)), 5);
}

fn fixed(x: f64) -> u32 {
    (x * LOG_SCALE as f64).round() as u32
}

fn factor_with_floats(n: &Integer, max_polynomials: u64) -> Result<Option<Integer>, InvalidInput> {
    let bound = (n.to_f64().log10().powi(2) * 5.0) as u32;
    let fb = factor_base(n, bound);
    let tlog: Vec<u32> = fb.iter().map(|p| fixed((*p as f64).log10())).collect();
    let magnitude = sieve_magnitude(n, fb.len());
    factor(n, bound, tlog, fixed(magnitude.to_f64().log10()), max_polynomials)
}

#[test]
fn the_driver_turns_a_prime_away() {
    assert_eq!(factor_with_floats(&Integer::from(99991), 1000), Err(InvalidInput::Prime));
    assert_eq!(
        factor_with_floats(&"1201121312171223122912311237".parse::<Integer>().unwrap(), 1000),
        Err(InvalidInput::Prime)
    );
}

#[test]
fn the_driver_turns_small_and_even_numbers_away() {
    assert_eq!(factor_with_floats(&Integer::from(3), 1000), Err(InvalidInput::TooSmall));
    assert_eq!(factor_with_floats(&Integer::from(1000), 1000), Err(InvalidInput::Even));
}

#[test]
fn the_driver_factors_a_small_semiprime() {
    let n = "9986801107".parse::<Integer>().unwrap();
    let d = factor_with_floats(&n, 1_000_000).unwrap().unwrap();
    assert!(d == 99877 || d == 99991);
}

#[test]
fn the_driver_finds_nothing_without_a_step() {
    let n = "9986801107".parse::<Integer>().unwrap();
    assert_eq!(factor_with_floats(&n, 0), Ok(None));
}
