use mpqs::manager::{combine_partials, RelationManager};
use mpqs::relation::Relation;
use mpqs::sieve::Batch;
use rug::Integer;

fn relation(x: i64, y: i64, a: i64) -> Relation {
    (Integer::from(x), (Integer::from(y), Integer::from(a)))
}

#[test]
fn a_new_manager_holds_nothing() {
    let manager = RelationManager::new();
    assert_eq!(manager.count(), 0);
    assert!(manager.relations.is_empty());
    assert!(manager.partials.is_empty());
    assert!(!manager.is_complete(0));
}

#[test]
fn full_relations_pile_up_in_order() {
    let mut manager = RelationManager::new();
    manager.add_full(relation(1, -10, 3));
    manager.add_full(relation(10, 1, 3));
    assert_eq!(manager.count(), 2);
    assert_eq!(manager.relations, vec![relation(1, -10, 3), relation(10, 1, 3)]);
    assert!(manager.partials.is_empty());
    assert!(manager.is_complete(1));
    assert!(!manager.is_complete(2));
}

#[test]
fn a_partial_relation_waits_for_its_partner() {
    let mut manager = RelationManager::new();
    manager.add_partial(77, relation(28, 77, 3));
    assert_eq!(manager.count(), 0);
    assert_eq!(manager.partials.len(), 1);
    assert_eq!(manager.partials.get(&77), Some(&relation(28, 77, 3)));
    manager.add_partial(71, relation(37, 142, 3));
    assert_eq!(manager.count(), 0);
    assert_eq!(manager.partials.len(), 2);
}

#[test]
fn two_partial_relations_with_one_large_prime_make_a_full_one() {
    // both come from the polynomial 9 x^2 + 2 x - 10 of the number 91:
    // Q(3) = 77 = 7 * 11 and Q(-4) = 126 = 2 * 3^2 * 7
    let n = Integer::from(91);
    let mut manager = RelationManager::new();
    manager.add_partial(7, relation(28, 77, 3));
    manager.add_partial(7, relation(-35, 126, 3));
    assert!(manager.partials.is_empty());
    assert_eq!(manager.count(), 1);
    let both = &manager.relations[0];
    assert_eq!(both.0, 28 * -35);
    assert_eq!(both.1 .0, 126 * 77);
    assert_eq!(both.1 .1, 3 * 3 * 7);
    // the large prime is squared on the right and has to be carried on the left
    let lhs = Integer::from(&both.0 * &both.0) * 49;
    let rhs = Integer::from(&both.1 .1 * &both.1 .1) * &both.1 .0;
    assert!(Integer::from(lhs - rhs).is_divisible(&n));
}

#[test]
fn a_third_partial_relation_is_held_again() {
    let mut manager = RelationManager::new();
    manager.add_partial(7, relation(28, 77, 3));
    manager.add_partial(7, relation(-35, 126, 3));
    manager.add_partial(7, relation(5, 7, 1));
    assert_eq!(manager.count(), 1);
    assert_eq!(manager.partials.get(&7), Some(&relation(5, 7, 1)));
}

#[test]
fn combining_multiplies_the_parts() {
    let both = combine_partials(&relation(2, 3, 5), &relation(7, 11, 13), 17);
    assert_eq!(both, relation(14, 33, 5 * 13 * 17));
}

#[test]
fn a_batch_is_taken_in_whole() {
    let mut manager = RelationManager::new();
    manager.add_partial(11, relation(1, 11, 1));
    let batch = Batch {
        smooths: vec![relation(1, -10, 3), relation(10, 1, 3)],
        partials: vec![(7, relation(28, 77, 3)), (11, relation(2, 22, 1)), (7, relation(-35, 126, 3))],
    };
    manager.absorb(&batch);
    assert_eq!(
        manager.relations,
        vec![
            relation(1, -10, 3),
            relation(10, 1, 3),
            relation(2, 242, 11),
            relation(28 * -35, 126 * 77, 63),
        ]
    );
    assert!(manager.partials.is_empty());
}

/// `X^2 = A^2 * (Y / large^2)` modulo `n`.
fn holds_without_the_square(rel: &Relation, large: u64, n: i64) -> bool {
    let (x, (y, a)) = rel;
    let square = Integer::from(large) * large;
    assert_eq!(Integer::from(y % &square), 0);
    let reduced = Integer::from(y / &square);
    let difference = Integer::from(x * x) - Integer::from(a * a) * reduced;
    difference % n == 0
}

#[test]
fn a_merged_relation_holds_without_the_square_of_its_large_prime() {
    // modulo 91: 28^2 = 56 = 9 * 77, and 35^2 = 42 = 9 * 126
    let both = combine_partials(&relation(28, 77, 3), &relation(-35, 126, 3), 7);
    assert_eq!(both, relation(-980, 9702, 63));
    assert!(holds_without_the_square(&both, 7, 91));
    // modulo 77: 1^2 = 1 = 78, twice
    let both = combine_partials(&relation(1, 78, 1), &relation(1, 78, 1), 13);
    assert_eq!(both, relation(1, 6084, 13));
    assert!(holds_without_the_square(&both, 13, 77));
    // with the square left in, the two sides differ modulo 77
    let (x, (y, a)) = &both;
    let plain = Integer::from(x * x) - Integer::from(a * a) * y;
    assert_ne!(plain % 77, 0);
}
