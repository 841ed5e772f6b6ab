use chashmap::CHashMap;
use crossbeam::queue::ArrayQueue;
use mpqs::memory_shared_MPQS::{drain, hand_in, has_enough, settle, share, work};
use mpqs::message_MPQS::{solve, Progress};
use mpqs::polynomial::seek_root;
use mpqs::relation::Relation;
use mpqs::serial_MPQS::{factor_base, initialize_qs, sieve_magnitude, InitResult, LOG_SCALE};
use mpqs::check_is_divisor;
use mpqs::sieve::Batch;
use rug::Integer;

fn relation(x: i64, y: i64, a: i64) -> Relation {
    (Integer::from(x), (Integer::from(y), Integer::from(a)))
}

fn fixed(x: f64) -> u32 {
    (x * LOG_SCALE as f64).round() as u32
}

fn prepare(n: &Integer) -> InitResult {
    let bound = (n.to_f64().log10().powi(2) * 5.0) as u32;
    let fb = factor_base(n, bound);
    let tlog: Vec<u32> = fb.iter().map(|p| fixed((*p as f64).log10())).collect();
    let magnitude = sieve_magnitude(n, fb.len());
    initialize_qs(n, bound, tlog, fixed(magnitude.to_f64().log10())).unwrap()
}

#[test]
fn a_partial_relation_without_a_partner_is_held() {
    let settled = settle(None, relation(28, 77, 3), 7);
    assert_eq!(settled.stays, Some(relation(28, 77, 3)));
    assert_eq!(settled.leaves, None);
}

#[test]
fn a_partial_relation_with_a_partner_is_released() {
    let settled = settle(Some(relation(28, 77, 3)), relation(-35, 126, 3), 7);
    assert_eq!(settled.stays, None);
    assert_eq!(settled.leaves, Some(relation(28 * -35, 126 * 77, 63)));
}

fn nothing() -> Batch {
    Batch { smooths: Vec::new(), partials: Vec::new() }
}

#[test]
fn a_batch_goes_to_the_queue_and_the_table() {
    let smooths: ArrayQueue<Relation> = ArrayQueue::new(10);
    let partials: CHashMap<u64, Relation> = CHashMap::new();
    partials.insert(11, relation(1, 11, 1));
    let batch = Batch {
        smooths: vec![relation(1, -10, 3), relation(10, 1, 3)],
        partials: vec![
            (7, relation(28, 77, 3)),
            (11, relation(2, 22, 1)),
            (13, relation(3, 13, 1)),
            (7, relation(-35, 126, 3)),
        ],
    };
    let mut back = Vec::new();
    share(&batch, &smooths, &partials, &mut back);
    assert!(back.is_empty());
    assert_eq!(smooths.len(), 4);
    assert_eq!(smooths.pop(), Some(relation(1, -10, 3)));
    assert_eq!(smooths.pop(), Some(relation(10, 1, 3)));
    assert_eq!(smooths.pop(), Some(relation(2, 242, 11)));
    assert_eq!(smooths.pop(), Some(relation(28 * -35, 126 * 77, 63)));
    // the entries that met their partners are gone, the one without waits
    assert_eq!(partials.len(), 1);
    assert!(!partials.contains_key(&7));
    assert!(!partials.contains_key(&11));
    assert_eq!(partials.get(&13).map(|held| held.clone()), Some(relation(3, 13, 1)));
}

#[test]
fn an_empty_batch_changes_nothing() {
    let smooths: ArrayQueue<Relation> = ArrayQueue::new(1);
    let partials: CHashMap<u64, Relation> = CHashMap::new();
    let mut back = vec![relation(5, 5, 5)];
    share(&nothing(), &smooths, &partials, &mut back);
    assert_eq!(back, vec![relation(5, 5, 5)]);
    assert!(smooths.is_empty());
    assert!(partials.is_empty());
}

#[test]
fn a_full_queue_hands_back_what_comes() {
    let smooths: ArrayQueue<Relation> = ArrayQueue::new(1);
    let partials: CHashMap<u64, Relation> = CHashMap::new();
    partials.insert(7, relation(28, 77, 3));
    let batch = Batch {
        smooths: vec![relation(1, -10, 3), relation(10, 1, 3)],
        partials: vec![(7, relation(-35, 126, 3))],
    };
    let mut back = vec![relation(5, 5, 5)];
    share(&batch, &smooths, &partials, &mut back);
    assert_eq!(smooths.len(), 1);
    assert_eq!(smooths.pop(), Some(relation(1, -10, 3)));
    // nothing is lost: what found no place comes back, behind what was there
    assert_eq!(
        back,
        vec![relation(5, 5, 5), relation(10, 1, 3), relation(28 * -35, 126 * 77, 63)]
    );
    assert!(partials.is_empty());
    // offered again, it finds its place as far as there is room
    let mut rest = Vec::new();
    hand_in(&back, &smooths, &mut rest);
    assert_eq!(smooths.pop(), Some(relation(5, 5, 5)));
    assert_eq!(rest, vec![relation(10, 1, 3), relation(28 * -35, 126 * 77, 63)]);
}

#[test]
fn the_table_takes_any_number_of_pairs() {
    // every pair puts an entry into the table and takes it out again
    let smooths: ArrayQueue<Relation> = ArrayQueue::new(5000);
    let partials: CHashMap<u64, Relation> = CHashMap::default();
    let mut batch = nothing();
    for large in 0..2000u64 {
        batch.partials.push((1000 + large, relation(2, 3, 5)));
        batch.partials.push((1000 + large, relation(7, 11, 13)));
    }
    // and a last one without a partner
    batch.partials.push((17, relation(1, 17, 1)));
    let mut back = Vec::new();
    share(&batch, &smooths, &partials, &mut back);
    assert!(back.is_empty());
    assert_eq!(smooths.len(), 2000);
    assert_eq!(smooths.pop(), Some(relation(14, 33, 65 * 1000)));
    assert_eq!(partials.len(), 1);
    assert_eq!(partials.get(&17).map(|held| held.clone()), Some(relation(1, 17, 1)));
    // the partner of the last one finds it
    let late = Batch { smooths: Vec::new(), partials: vec![(17, relation(3, 34, 1))] };
    share(&late, &smooths, &partials, &mut back);
    assert!(back.is_empty());
    assert_eq!(smooths.len(), 2000);
    assert!(partials.is_empty());
}

#[test]
fn the_solver_waits_for_more_relations_than_primes() {
    assert!(!has_enough(0, 0));
    assert!(!has_enough(7, 7));
    assert!(has_enough(8, 7));
}

#[test]
fn too_few_relations_are_not_solved() {
    let n = Integer::from(9986801107u64);
    let init = prepare(&n);
    let collected: Vec<Relation> = Vec::new();
    assert!(matches!(solve(&n, &init, &collected), Progress::Collecting));
    let few = vec![relation(1, 1, 1); init.factorbase.len()];
    assert!(matches!(solve(&n, &init, &few), Progress::Collecting));
}

#[test]
fn draining_appends_what_the_queue_holds() {
    let smooths: ArrayQueue<Relation> = ArrayQueue::new(5);
    smooths.push(relation(1, 2, 3)).unwrap();
    smooths.push(relation(4, 5, 6)).unwrap();
    let mut collected = vec![relation(7, 8, 9)];
    drain(&smooths, &mut collected);
    assert_eq!(collected, vec![relation(7, 8, 9), relation(1, 2, 3), relation(4, 5, 6)]);
    assert!(smooths.is_empty());
    drain(&smooths, &mut collected);
    assert_eq!(collected.len(), 3);
}

/// One worker after the other, on the calling thread.
fn factor_in_shared_memory(n: &Integer) -> Option<Integer> {
    let init = prepare(n);
    let smooths: ArrayQueue<Relation> = ArrayQueue::new(init.factorbase.len() + 100);
    let partials: CHashMap<u64, Relation> = CHashMap::new();
    let mut cursor = init.roota.clone();
    let mut collected: Vec<Relation> = Vec::new();
    let mut backlog: Vec<Relation> = Vec::new();
    for _ in 0..1_000_000 {
        let (next, accepted) = seek_root(n, &cursor, 1_000);
        cursor = next;
        assert!(accepted);
        let (enough, back) = work(n, &init, &cursor, &smooths, &partials, &backlog);
        backlog = back;
        if enough {
            assert!(smooths.len() > init.factorbase.len());
            drain(&smooths, &mut collected);
            assert!(smooths.is_empty());
            if let Progress::Done(found) = solve(n, &init, &collected) {
                return Some(found);
            }
        }
    }
    None
}

#[test]
fn memory_shared_MPQS_test_qs() {
    let n = "523022617466601111760007224100074291200000001"
        .parse::<Integer>()
        .unwrap();
    assert!(check_is_divisor(&n, &factor_in_shared_memory(&n)));
}

#[test]
fn memory_shared_MPQS_test_qs_2() {
    let n = "9986801107".parse::<Integer>().unwrap();
    let found = factor_in_shared_memory(&n);
    assert!(check_is_divisor(&n, &found));
    let d = found.unwrap();
    assert!(d == 99877 || d == 99991);
}
