use nim_proxy::pool::{window, Pool, Reservation};
use nim_proxy::time::{Duration, Instant};

fn keys(n: usize) -> Vec<String> {
    (0..n).map(|i| format!("key{i}")).collect()
}

fn take(pool: &mut Pool, prefer: Option<usize>) -> usize {
    match pool.reserve(prefer) {
        Reservation::Ready { lane, .. } => lane,
        Reservation::Wait(_) => panic!("expected Ready"),
    }
}

fn secs(n: u64) -> Instant {
    Instant { nanos: n as u128 * 1_000_000_000 }
}

#[test]
fn spreads_load_across_lanes_then_waits() {
    let mut pool = Pool::new(keys(2), 1);
    assert_eq!(take(&mut pool, None), 0);
    assert_eq!(take(&mut pool, None), 1);
    // Both lanes at their 1-per-minute cap: caller must wait ~60s.
    match pool.reserve(None) {
        Reservation::Wait(w) => assert!(w > Duration::from_secs(55) && w <= window()),
        _ => panic!("expected Wait"),
    }
}

#[test]
fn burst_lands_on_least_loaded_lane() {
    let mut pool = Pool::new(keys(3), 10);
    let mut per_lane = [0usize; 3];
    for _ in 0..9 {
        per_lane[take(&mut pool, None)] += 1;
    }
    assert_eq!(per_lane, [3, 3, 3]);
}

#[test]
fn sticky_lane_wins_until_full_then_spills_over() {
    let mut pool = Pool::new(keys(2), 2);
    assert_eq!(take(&mut pool, Some(1)), 1);
    assert_eq!(take(&mut pool, Some(1)), 1);
    // Preferred lane is at capacity: spill to the other lane.
    assert_eq!(take(&mut pool, Some(1)), 0);
}

#[test]
fn sticky_flag_reports_affinity_outcome() {
    let mut pool = Pool::new(keys(2), 1);
    match pool.reserve(Some(0)) {
        Reservation::Ready {
            lane: 0,
            sticky: true,
            ..
        } => {}
        _ => panic!("expected sticky hit on lane 0"),
    }
    match pool.reserve(Some(0)) {
        Reservation::Ready {
            lane: 1,
            sticky: false,
            ..
        } => {}
        _ => panic!("expected spill to lane 1"),
    }
}

#[test]
fn released_slot_becomes_available_again() {
    let mut pool = Pool::new(keys(1), 1);
    let Reservation::Ready { lane, stamp, .. } = pool.reserve(None) else {
        panic!("expected Ready");
    };
    assert!(matches!(pool.reserve(None), Reservation::Wait(_)));
    pool.release(lane, stamp);
    assert!(matches!(pool.reserve(None), Reservation::Ready { .. }));
}

#[test]
fn penalized_lane_is_skipped() {
    let mut pool = Pool::new(keys(2), 10);
    pool.penalize(0, Duration::from_secs(30));
    match pool.reserve(None) {
        Reservation::Ready { lane, key, .. } => {
            assert_eq!(lane, 1);
            assert_eq!(key, "key1");
        }
        _ => panic!("expected Ready on lane 1"),
    }
}

#[test]
fn all_lanes_penalized_reports_soonest_recovery() {
    let mut pool = Pool::new(keys(2), 10);
    pool.penalize(0, Duration::from_secs(30));
    pool.penalize(1, Duration::from_secs(5));
    match pool.reserve(None) {
        Reservation::Wait(w) => assert!(w <= Duration::from_secs(5)),
        _ => panic!("expected Wait"),
    }
}

#[test]
fn window_slides_over_the_rate() {
    let mut pool = Pool::new(keys(1), 2);
    assert!(matches!(pool.reserve_at(secs(1), None), Reservation::Ready { .. }));
    assert!(matches!(pool.reserve_at(secs(11), None), Reservation::Ready { .. }));
    match pool.reserve_at(secs(21), None) {
        Reservation::Wait(w) => assert_eq!(w, Duration::from_secs(41)),
        _ => panic!("expected Wait"),
    }
    // The first send has left the 61 s window, the second has not.
    assert!(matches!(pool.reserve_at(secs(62), None), Reservation::Ready { .. }));
    match pool.reserve_at(secs(62), None) {
        Reservation::Wait(w) => assert_eq!(w, Duration::from_secs(10)),
        _ => panic!("expected Wait"),
    }
}

#[test]
fn released_slot_leaves_no_trace() {
    let mut pool = Pool::new(keys(1), 1);
    let Reservation::Ready { lane, stamp, .. } = pool.reserve_at(secs(5), None) else {
        panic!("expected Ready");
    };
    pool.release(lane, stamp);
    // A stamp that is not there any more changes nothing.
    pool.release(lane, stamp);
    assert!(matches!(pool.reserve_at(secs(6), None), Reservation::Ready { .. }));
}

#[test]
fn a_shorter_bench_does_not_cut_a_longer_one() {
    let mut pool = Pool::new(keys(1), 10);
    pool.penalize_at(0, secs(10), Duration::from_secs(30));
    pool.penalize_at(0, secs(10), Duration::from_secs(5));
    match pool.reserve_at(secs(20), None) {
        Reservation::Wait(w) => assert_eq!(w, Duration::from_secs(20)),
        _ => panic!("expected Wait"),
    }
    assert!(matches!(pool.reserve_at(secs(40), None), Reservation::Ready { .. }));
}

#[test]
fn a_long_bench_is_waited_for_to_its_end() {
    let mut pool = Pool::new(keys(2), 10);
    pool.penalize_at(0, secs(1), Duration::from_secs(600));
    pool.penalize_at(1, secs(1), Duration::from_secs(700));
    match pool.reserve_at(secs(1), None) {
        Reservation::Wait(w) => assert_eq!(w, Duration::from_secs(600)),
        _ => panic!("expected Wait"),
    }
    assert!(matches!(pool.reserve_at(secs(600), None), Reservation::Wait(_)));
    assert!(matches!(pool.reserve_at(secs(601), None), Reservation::Ready { lane: 0, .. }));
}

#[test]
fn a_lone_lane_benched_for_minutes_reports_the_whole_bench() {
    let mut pool = Pool::new(keys(1), 1);
    pool.penalize(0, Duration::from_secs(300));
    match pool.reserve(None) {
        Reservation::Wait(w) => {
            assert!(w > Duration::from_secs(295) && w <= Duration::from_secs(300))
        }
        _ => panic!("expected Wait"),
    }
}

#[test]
fn an_empty_pool_waits_for_a_window() {
    let mut pool = Pool::new(keys(0), 1);
    match pool.reserve_at(secs(1), None) {
        Reservation::Wait(w) => assert_eq!(w, window()),
        _ => panic!("expected Wait"),
    }
}

#[test]
fn rebuilt_pool_keeps_the_state_of_keys_that_stay() {
    let mut pool = Pool::new(keys(2), 1);
    assert!(matches!(pool.reserve_at(secs(1), Some(0)), Reservation::Ready { .. }));
    pool.penalize_at(1, secs(1), Duration::from_secs(30));
    let mut next = pool.rebuild(&vec![
        ("key1".to_owned(), 5),
        ("key0".to_owned(), 1),
        ("new".to_owned(), 2),
    ]);
    assert_eq!(next.len(), 3);
    // key1 is still benched and key0 still spent: only the new key is free.
    for _ in 0..2 {
        match next.reserve_at(secs(2), None) {
            Reservation::Ready { lane, key, .. } => {
                assert_eq!(lane, 2);
                assert_eq!(key, "new");
            }
            _ => panic!("expected Ready"),
        }
    }
    match next.reserve_at(secs(2), None) {
        Reservation::Wait(w) => assert_eq!(w, Duration::from_secs(29)),
        _ => panic!("expected Wait"),
    }
}

#[test]
fn instants_of_the_clock_do_not_go_back() {
    let mut pool = Pool::new(keys(1), 10);
    let a = pool.now();
    assert!(matches!(pool.reserve_at(secs(1000), None), Reservation::Ready { .. }));
    assert!(pool.now() >= secs(1000));
    assert!(a < secs(1000));
    assert_eq!(Duration::from_millis(1500).as_secs(), 1);
    assert_eq!(Duration::from_secs(900).as_secs(), 900);
}
