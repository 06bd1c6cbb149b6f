use nim_proxy::dispatch::{affinity_result, Dispatcher, Turn};
use nim_proxy::pool::Pool;
use nim_proxy::time::{Duration, Instant};

fn dispatcher(lanes: usize, rpm: usize) -> Dispatcher<u32> {
    Dispatcher::new(Pool::new(
        (0..lanes).map(|i| format!("key{i}")).collect(),
        rpm,
    ))
}

fn ms(n: u64) -> Instant {
    Instant { nanos: n as u128 * 1_000_000 }
}

#[test]
fn grants_slots_in_order_while_capacity_remains() {
    let mut d = dispatcher(2, 1);
    d.acquire(1, ms(5_000), None);
    d.acquire(2, ms(5_000), None);
    match d.turn_at(ms(0), ms(0), false) {
        Turn::Granted { reply, lane, .. } => assert_eq!((reply, lane), (1, 0)),
        _ => panic!("first slot"),
    }
    match d.turn_at(ms(0), ms(0), false) {
        Turn::Granted { reply, lane, .. } => assert_eq!((reply, lane), (2, 1)),
        _ => panic!("second slot"),
    }
}

#[test]
fn fails_fast_when_no_slot_can_open_before_deadline() {
    let mut d = dispatcher(1, 1);
    d.acquire(1, ms(200), None);
    d.acquire(2, ms(200), None);
    assert!(matches!(d.turn_at(ms(0), ms(0), false), Turn::Granted { .. }));
    // Lane is at capacity for ~60s, far past the deadline.
    assert!(matches!(d.turn_at(ms(0), ms(0), false), Turn::Expired(2)));
}

#[test]
fn a_later_request_never_overtakes() {
    let mut d = dispatcher(2, 1);
    for who in 1..=3 {
        d.acquire(who, ms(100_000), Some(0));
    }
    d.acquire(4, ms(100_000), Some(1));
    assert!(matches!(d.turn_at(ms(0), ms(0), false), Turn::Granted { reply: 1, sticky: true, .. }));
    assert!(matches!(d.turn_at(ms(0), ms(0), false), Turn::Granted { reply: 2, sticky: false, .. }));
    // Saturated: the third waits, and the fourth behind it.
    match d.turn_at(ms(0), ms(1), false) {
        Turn::Sleep(nap) => assert_eq!(nap, Duration::from_millis(500)),
        _ => panic!("expected a nap"),
    }
    assert_eq!(d.head(), Some(&3));
    assert_eq!(d.depth(), 2);
    assert!(matches!(d.turn_at(ms(61_000), ms(61_000), false), Turn::Granted { reply: 3, .. }));
    assert!(matches!(d.turn_at(ms(61_000), ms(61_000), false), Turn::Granted { reply: 4, .. }));
    assert!(matches!(d.turn_at(ms(61_000), ms(61_000), false), Turn::Idle));
    assert_eq!(d.head(), None);
}

#[test]
fn the_deadline_itself_is_in_time() {
    let mut d = dispatcher(1, 1);
    d.acquire(1, ms(0), None);
    d.acquire(2, ms(61_000), None);
    d.acquire(3, ms(60_999), None);
    assert!(matches!(d.turn_at(ms(0), ms(0), false), Turn::Granted { .. }));
    assert!(matches!(d.turn_at(ms(0), ms(0), false), Turn::Sleep(_)));
    assert!(matches!(d.turn_at(ms(0), ms(0), true), Turn::Abandoned(2)));
    assert!(matches!(d.turn_at(ms(0), ms(0), false), Turn::Expired(3)));
    d.acquire(4, ms(100_000), None);
    // Close to the next slot the nap ends with it.
    match d.turn_at(ms(60_900), ms(60_900), false) {
        Turn::Sleep(nap) => assert_eq!(nap, Duration::from_millis(100)),
        _ => panic!("expected a nap"),
    }
}

#[test]
fn an_undelivered_slot_goes_back() {
    let mut d = dispatcher(1, 1);
    d.acquire(1, ms(10), None);
    d.acquire(2, ms(10), None);
    let Turn::Granted { lane, key, stamp, .. } = d.turn_at(ms(0), ms(0), false) else {
        panic!("expected a slot");
    };
    d.undelivered(lane, &key, stamp);
    assert!(matches!(d.turn_at(ms(1), ms(1), false), Turn::Granted { reply: 2, .. }));
}

#[test]
fn a_preference_for_a_lane_that_is_gone_is_dropped() {
    let mut d = dispatcher(2, 1);
    d.acquire(1, ms(10), Some(7));
    assert!(matches!(d.turn_at(ms(0), ms(0), false), Turn::Granted { lane: 0, sticky: false, .. }));
    d.rebuild(&vec![("key0".to_owned(), 1), ("other".to_owned(), 1)]);
    assert_eq!(d.lanes(), 2);
    d.acquire(2, ms(10), Some(0));
    assert!(matches!(d.turn_at(ms(1), ms(1), false), Turn::Granted { lane: 1, sticky: false, .. }));
}

#[test]
fn a_slot_goes_back_to_its_key_after_a_rebuild() {
    let mut d = dispatcher(1, 1);
    d.acquire(1, ms(10), None);
    let Turn::Granted { lane, key, stamp, .. } = d.turn_at(ms(0), ms(0), false) else {
        panic!("expected a slot");
    };
    d.rebuild(&vec![("other".to_owned(), 1), ("key0".to_owned(), 1)]);
    d.undelivered(lane, &key, stamp);
    d.acquire(2, ms(10), Some(1));
    assert!(matches!(d.turn_at(ms(0), ms(0), false), Turn::Granted { lane: 1, sticky: true, .. }));
    // A bench goes with the key, and a key that is gone is let be.
    d.penalize(0, &"gone".to_owned(), Duration::from_secs(5));
    d.acquire(3, ms(10), Some(0));
    assert!(matches!(d.turn_at(ms(0), ms(0), false), Turn::Granted { lane: 0, .. }));
}

#[test]
fn turns_go_by_the_clock() {
    let mut d = dispatcher(1, 1);
    let deadline = Instant { nanos: d.now().nanos + 200_000_000 };
    d.acquire(1, deadline, None);
    d.acquire(2, deadline, None);
    assert!(matches!(d.turn(false), Turn::Granted { reply: 1, .. }));
    assert!(matches!(d.turn(false), Turn::Expired(2)));
    assert!(matches!(d.turn(false), Turn::Idle));
}

#[test]
fn affinity_outcomes_have_labels() {
    assert_eq!(affinity_result(None, false), "none");
    assert_eq!(affinity_result(Some(1), true), "sticky");
    assert_eq!(affinity_result(Some(1), false), "spill");
}

#[test]
fn nobody_waits_for_a_bench_that_outlasts_the_deadline() {
    let mut d = dispatcher(1, 1);
    d.penalize_at(0, &"key0".to_owned(), ms(0), Duration::from_secs(300));
    d.acquire(1, ms(100_000), None);
    d.acquire(2, ms(300_000), None);
    assert!(matches!(d.turn_at(ms(0), ms(0), false), Turn::Expired(1)));
    assert!(matches!(d.turn_at(ms(0), ms(0), false), Turn::Sleep(_)));
    assert!(matches!(d.turn_at(ms(300_000), ms(300_000), false), Turn::Granted { reply: 2, .. }));
}
