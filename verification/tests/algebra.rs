use mpqs::algebra::{
    algebra, create_vector, dependencies, parity_matrix, reduce_row_echelon_form,
};
use mpqs::extractor::{combine, extract_factor};
use mpqs::relation::Relation;
use rug::Integer;

fn relation(x: i64, y: i64, a: i64) -> Relation {
    (Integer::from(x), (Integer::from(y), Integer::from(a)))
}

fn rows(values: &[u64]) -> Vec<Integer> {
    values.iter().map(|v| Integer::from(*v)).collect()
}

fn sum_of_picked(rows: &[Integer], mask: &Integer) -> Integer {
    let mut sum = Integer::from(0);
    for (j, row) in rows.iter().enumerate() {
        if mask.get_bit(j as u32) {
            sum ^= row;
        }
    }
    sum
}

#[test]
fn the_row_of_a_number_holds_the_parities_of_its_exponents() {
    let fb: Vec<u64> = vec![2, 3, 5];
    // -12 = -(2^2 * 3): the sign bit and the bit of 3
    assert_eq!(create_vector(&Integer::from(-12), &fb), 0b0101);
    // 360 = 2^3 * 3^2 * 5: the bits of 2 and 5
    assert_eq!(create_vector(&Integer::from(360), &fb), 0b1010);
    // 30 = 2 * 3 * 5
    assert_eq!(create_vector(&Integer::from(30), &fb), 0b1110);
    // -1: the sign bit alone
    assert_eq!(create_vector(&Integer::from(-1), &fb), 0b0001);
    // 1 and 0 have no bit; 7 has no factor in the base
    assert_eq!(create_vector(&Integer::from(1), &fb), 0);
    assert_eq!(create_vector(&Integer::from(0), &fb), 0);
    assert_eq!(create_vector(&Integer::from(7), &fb), 0);
    // 7 * 3^3: what is not in the base is ignored
    assert_eq!(create_vector(&Integer::from(189), &fb), 0b0100);
}

#[test]
fn every_bit_of_a_row_is_the_parity_of_an_exponent() {
    let fb: Vec<u64> = vec![2, 3, 5, 7, 11, 13];
    for y in -500i64..500 {
        let row = create_vector(&Integer::from(y), &fb);
        assert_eq!(row.get_bit(0), y < 0);
        for (i, p) in fb.iter().enumerate() {
            let mut left = y.unsigned_abs();
            let mut exponent = 0;
            while left != 0 && left % p == 0 {
                left /= p;
                exponent += 1;
            }
            assert_eq!(row.get_bit(i as u32 + 1), exponent % 2 == 1, "y = {}, p = {}", y, p);
        }
        assert!(row.significant_bits() <= 7);
    }
}

#[test]
fn the_matrix_has_one_row_for_each_relation() {
    let fb: Vec<u64> = vec![2, 5];
    let smooths = vec![relation(41, 32, 1), relation(43, 200, 1), relation(1, -5, 1)];
    assert_eq!(parity_matrix(&fb, &smooths), rows(&[0b010, 0b010, 0b101]));
}

#[test]
fn three_rows_that_add_up_to_zero_are_one_dependency() {
    let masks = dependencies(rows(&[0b011, 0b101, 0b110]), 3);
    assert_eq!(masks, rows(&[0b111]));
}

#[test]
fn independent_rows_have_no_dependency() {
    assert!(dependencies(rows(&[1, 2, 4]), 3).is_empty());
    assert!(dependencies(rows(&[0b11, 0b01]), 2).is_empty());
    assert!(dependencies(Vec::new(), 3).is_empty());
}

#[test]
fn equal_rows_and_zero_rows_are_dependencies() {
    assert_eq!(dependencies(rows(&[5, 5]), 3), rows(&[0b11]));
    assert_eq!(dependencies(rows(&[0]), 3), rows(&[0b1]));
    assert_eq!(dependencies(rows(&[0, 0]), 0), rows(&[0b01, 0b10]));
}

#[test]
fn every_dependency_adds_up_to_zero() {
    let matrix = rows(&[
        0b1011001, 0b0110100, 0b1101101, 0b0000111, 0b1110000, 0b0101010, 0b1111111, 0b0011100,
        0b1000001, 0b0100010,
    ]);
    let masks = dependencies(matrix.clone(), 7);
    // ten rows in seven columns: three dependencies at least
    assert!(masks.len() >= 3);
    for mask in &masks {
        assert_ne!(*mask, 0);
        assert!(mask.significant_bits() <= 10);
        assert_eq!(sum_of_picked(&matrix, mask), 0);
    }
    // the dependencies are independent of each other
    for i in 0..masks.len() {
        for j in 0..i {
            assert_ne!(masks[i], masks[j]);
        }
    }
}

#[test]
fn a_mask_yields_the_two_sides_of_a_congruence() {
    let fb: Vec<u64> = vec![2, 5];
    let smooths = vec![relation(41, 32, 1), relation(43, 200, 1), relation(7, -50, 3)];
    // 32 * 200 = 2^8 * 5^2: the right-hand side is 2^4 * 5
    let (lhs, rhs) = combine(&smooths, &fb, &Integer::from(0b011));
    assert_eq!(lhs, 41 * 43);
    assert_eq!(rhs, 80);
    // one negative value: the sign factor is (-1)^0
    let (lhs, rhs) = combine(&smooths, &fb, &Integer::from(0b100));
    assert_eq!(lhs, 7);
    assert_eq!(rhs, 3 * 5);
    // nothing picked
    let (lhs, rhs) = combine(&smooths, &fb, &Integer::from(0));
    assert_eq!(lhs, 1);
    assert_eq!(rhs, 1);
}

#[test]
fn two_negative_values_give_a_negative_side() {
    let fb: Vec<u64> = vec![2, 3];
    let smooths = vec![relation(5, -2, 1), relation(7, -8, 1), relation(11, -3, 1), relation(13, -27, 1)];
    // (-2) * (-8): two negative values, (-1)^1 * 2^2
    let (lhs, rhs) = combine(&smooths, &fb, &Integer::from(0b0011));
    assert_eq!(lhs, 35);
    assert_eq!(rhs, -4);
    // four negative values: (-1)^2 * 2^2 * 3^2
    let (lhs, rhs) = combine(&smooths, &fb, &Integer::from(0b1111));
    assert_eq!(lhs, 5 * 7 * 11 * 13);
    assert_eq!(rhs, 36);
}

#[test]
fn the_first_mask_with_a_proper_divisor_decides() {
    let n = Integer::from(1649);
    let fb: Vec<u64> = vec![2, 5];
    let smooths = vec![relation(41, 32, 1), relation(43, 200, 1)];
    // gcd(80 - 41 * 43, 1649) = 17
    let masks = vec![Integer::from(0b11)];
    assert_eq!(extract_factor(&fb, &smooths, &n, &masks), Some(Integer::from(17)));
    // the empty product gives gcd(1 - 1, n) = n, which is no proper divisor
    let masks = vec![Integer::from(0)];
    assert_eq!(extract_factor(&fb, &smooths, &n, &masks), None);
    // a mask without a proper divisor is passed over
    let masks = vec![Integer::from(0), Integer::from(0b11)];
    assert_eq!(extract_factor(&fb, &smooths, &n, &masks), Some(Integer::from(17)));
    assert_eq!(extract_factor(&fb, &smooths, &n, &Vec::new()), None);
}

#[test]
fn the_solver_finds_a_factor_of_1649() {
    let n = Integer::from(1649);
    let fb: Vec<u64> = vec![2, 5];
    let smooths = vec![relation(41, 32, 1), relation(43, 200, 1)];
    let found = algebra(&fb, &smooths, &n).unwrap();
    assert_eq!(found, 17);
    assert!(found > 1 && found < n);
    assert!(n.is_divisible(&found));
}

#[test]
fn the_solver_finds_nothing_without_a_dependency() {
    let n = Integer::from(1649);
    let fb: Vec<u64> = vec![2, 5];
    assert_eq!(algebra(&fb, &[relation(41, 32, 1)], &n), None);
    assert_eq!(algebra(&fb, &[], &n), None);
}

#[test]
fn the_solver_finds_nothing_in_trivial_congruences() {
    // 4^2 = 16 and 16 is a square: X = Y, and the common divisor is n
    let n = Integer::from(1649);
    let fb: Vec<u64> = vec![2, 5];
    assert_eq!(algebra(&fb, &[relation(4, 16, 1)], &n), None);
}

#[test]
fn there_is_a_dependency_exactly_when_the_rows_are_dependent() {
    // all matrices of three rows in two columns
    for a in 0u64..4 {
        for b in 0u64..4 {
            for c in 0u64..4 {
                let matrix = rows(&[a, b, c]);
                let masks = dependencies(matrix.clone(), 2);
                let mut dependent = 0;
                for pick in 1u32..8 {
                    if sum_of_picked(&matrix, &Integer::from(pick)) == 0 {
                        dependent += 1;
                    }
                }
                // the dependencies are the sums of masks but the empty one
                assert_eq!(dependent + 1, 1usize << masks.len());
                for mask in &masks {
                    assert_eq!(sum_of_picked(&matrix, mask), 0);
                }
            }
        }
    }
}

#[test]
fn the_reduction_of_three_rows_is_exact() {
    // column 0: row 0 is the pivot row and clears row 1;
    // column 1: row 1 is the pivot row and clears rows 0 and 2
    let mut m = rows(&[3, 1, 2]);
    let mut h = rows(&[1, 2, 4]);
    assert_eq!(reduce_row_echelon_form(&mut m, &mut h, 2), 2);
    assert_eq!(m, rows(&[1, 2, 0]));
    assert_eq!(h, rows(&[2, 3, 7]));
}

#[test]
fn a_second_reduction_changes_nothing() {
    let mut m = rows(&[3, 1, 2]);
    let mut h = rows(&[1, 2, 4]);
    reduce_row_echelon_form(&mut m, &mut h, 2);
    assert_eq!(reduce_row_echelon_form(&mut m, &mut h, 2), 2);
    assert_eq!(m, rows(&[1, 2, 0]));
    assert_eq!(h, rows(&[2, 3, 7]));

    let start = rows(&[6, 5, 3, 12, 10, 9, 15, 0, 6]);
    let mut m = start.clone();
    let mut h: Vec<Integer> = (0..start.len() as u32).map(|j| Integer::from(1) << j).collect();
    let rank = reduce_row_echelon_form(&mut m, &mut h, 4);
    let (once_m, once_h) = (m.clone(), h.clone());
    assert_eq!(reduce_row_echelon_form(&mut m, &mut h, 4), rank);
    assert_eq!(m, once_m);
    assert_eq!(h, once_h);
}

#[test]
fn the_pivot_row_is_the_first_with_a_one_in_the_column() {
    // rows 1 and 2 both have a one in column 0: row 1 is exchanged with row 0
    let mut m = rows(&[2, 1, 3]);
    let mut h = rows(&[1, 2, 4]);
    assert_eq!(reduce_row_echelon_form(&mut m, &mut h, 2), 2);
    // after column 0: m = [1, 2, 2], h = [2, 1, 6]; column 1 clears row 2
    assert_eq!(m, rows(&[1, 2, 0]));
    assert_eq!(h, rows(&[2, 1, 7]));
}

#[test]
fn every_reduced_row_is_the_sum_that_its_history_picks() {
    let start = rows(&[6, 5, 3, 12, 10, 9, 15, 0, 6]);
    let mut m = start.clone();
    let mut h: Vec<Integer> = (0..start.len() as u32).map(|j| Integer::from(1) << j).collect();
    let rank = reduce_row_echelon_form(&mut m, &mut h, 4);
    assert_eq!(rank, 3);
    for i in 0..m.len() {
        assert_eq!(sum_of_picked(&start, &h[i]), m[i]);
        assert_ne!(h[i], 0);
        assert_eq!(m[i] == 0, i >= rank);
    }
}

#[test]
fn the_masks_are_the_history_of_the_zero_rows() {
    assert_eq!(dependencies(rows(&[3, 1, 2]), 2), rows(&[7]));
    assert_eq!(dependencies(rows(&[2, 1, 3]), 2), rows(&[7]));
    let start = rows(&[6, 5, 3, 12, 10, 9, 15, 0, 6]);
    let mut m = start.clone();
    let mut h: Vec<Integer> = (0..start.len() as u32).map(|j| Integer::from(1) << j).collect();
    let rank = reduce_row_echelon_form(&mut m, &mut h, 4);
    assert_eq!(dependencies(start, 4), h[rank..].to_vec());
}
