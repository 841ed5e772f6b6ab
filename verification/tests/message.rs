use mpqs::check_is_divisor;
use mpqs::message_MPQS::{Coordinator, Progress};
use mpqs::serial_MPQS::{factor_base, initialize_qs, sieve_magnitude, InitResult, LOG_SCALE};
use mpqs::sieve::{sieve_root, Batch};
use rug::Integer;

fn fixed(x: f64) -> u32 {
    (x * LOG_SCALE as f64).round() as u32
}

fn prepare(n: &Integer) -> InitResult {
    let bound = (n.to_f64().log10().powi(2) * 5.0) as u32;
    let fb = factor_base(n, bound);
    let tlog: Vec<u32> = fb.iter().map(|p| fixed((*p as f64).log10())).collect();
    let magnitude = sieve_magnitude(n, fb.len());
    initialize_qs(n, bound, tlog, fixed(magnitude.to_f64().log10())).unwrap()
}

#[test]
fn the_coordinator_starts_empty_at_the_first_root() {
    let n = Integer::from(9986801107u64);
    let init = prepare(&n);
    let coordinator = Coordinator::new(&init);
    assert_eq!(coordinator.cursor, init.roota);
    assert_eq!(coordinator.manager.count(), 0);
    assert!(coordinator.manager.partials.is_empty());
}

#[test]
fn the_cursor_moves_from_prime_to_prime() {
    let n = Integer::from(91);
    let init = initialize_qs(&n, 11, vec![1, 2, 3, 4], 100).unwrap();
    let mut coordinator = Coordinator::new(&init);
    assert_eq!(coordinator.cursor, 3);
    // (91|5) = 1, 7 divides 91, (91|11) = 1
    assert!(coordinator.advance(&n));
    assert_eq!(coordinator.cursor, 5);
    assert!(!coordinator.advance(&n));
    assert_eq!(coordinator.cursor, 7);
    assert!(coordinator.advance(&n));
    assert_eq!(coordinator.cursor, 11);
    assert_eq!(coordinator.manager.count(), 0);
}

#[test]
fn an_empty_report_leaves_the_coordinator_collecting() {
    let n = Integer::from(9986801107u64);
    let init = prepare(&n);
    let mut coordinator = Coordinator::new(&init);
    let batch = Batch { smooths: Vec::new(), partials: Vec::new() };
    assert!(matches!(coordinator.receive(&n, &init, &batch), Progress::Collecting));
    assert_eq!(coordinator.manager.count(), 0);
    assert_eq!(coordinator.cursor, init.roota);
}

/// One worker, on the calling thread.
fn factor_by_messages(n: &Integer) -> Option<Integer> {
    let init = prepare(n);
    let mut coordinator = Coordinator::new(&init);
    let mut roots: Vec<Integer> = Vec::new();
    for _ in 0..1_000_000 {
        let root = coordinator.hand_out(n, 1_000).unwrap();
        assert_eq!(root, coordinator.cursor);
        assert!(roots.last().map_or(true, |seen| *seen < root));
        roots.push(root);
        let batch = match sieve_root(n, &init, &coordinator.cursor) {
            Some(batch) => batch,
            None => continue,
        };
        let before = coordinator.manager.count();
        match coordinator.receive(n, &init, &batch) {
            Progress::Collecting => {
                assert!(coordinator.manager.count() >= before + batch.smooths.len());
            }
            Progress::Done(d) => {
                assert!(coordinator.manager.count() > init.factorbase.len());
                return Some(d);
            }
        }
    }
    None
}

#[test]
fn reports_are_collected_until_the_solver_finds_a_divisor() {
    let n = "2147483662032385529".parse::<Integer>().unwrap();
    let d = factor_by_messages(&n).unwrap();
    assert!(d == 1000000007 || d == 2147483647u32);
}

#[test]
fn message_MPQS_test_qs() {
    let n = "523022617466601111760007224100074291200000001"
        .parse::<Integer>()
        .unwrap();
    assert!(check_is_divisor(&n, &factor_by_messages(&n)));
}

#[test]
fn message_MPQS_test_qs_2() {
    let n = "9986801107".parse::<Integer>().unwrap();
    let found = factor_by_messages(&n);
    assert!(check_is_divisor(&n, &found));
    let d = found.unwrap();
    assert!(d == 99877 || d == 99991);
}

#[test]
fn the_coordinator_hands_out_the_next_accepted_root() {
    let n = Integer::from(91);
    let init = initialize_qs(&n, 11, vec![1, 2, 3, 4], 100).unwrap();
    let mut coordinator = Coordinator::new(&init);
    // (91|5) = 1
    assert_eq!(coordinator.hand_out(&n, 10), Some(Integer::from(5)));
    assert_eq!(coordinator.cursor, 5);
    // 7 divides 91 and is passed over, (91|11) = 1
    assert_eq!(coordinator.hand_out(&n, 10), Some(Integer::from(11)));
    assert_eq!(coordinator.cursor, 11);
    // 13 divides 91, (91|17) = -1: two steps reach no root
    assert_eq!(coordinator.hand_out(&n, 2), None);
    assert_eq!(coordinator.cursor, 17);
    // without a step the cursor stays
    assert_eq!(coordinator.hand_out(&n, 0), None);
    assert_eq!(coordinator.cursor, 17);
    assert_eq!(coordinator.manager.count(), 0);
}
