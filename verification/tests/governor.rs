use nim_proxy::governor::{Governor, Permit};
use nim_proxy::time::{Duration, Instant};

fn secs(n: u64) -> Instant {
    Instant { nanos: n as u128 * 1_000_000_000 }
}

#[test]
fn a_calm_model_is_not_governed() {
    let mut g = Governor::new();
    for _ in 0..100 {
        assert_eq!(g.permit("m", secs(1)), Permit::Granted);
    }
    assert_eq!(g.gauges("m"), (0, 100));
    g.release("m");
    assert_eq!(g.gauges("m"), (0, 99));
    assert_eq!(g.gauges("other"), (0, 0));
    g.release("other");
    assert_eq!(g.gauges("other"), (0, 0));
}

#[test]
fn exhaustion_halves_what_is_in_flight() {
    let mut g = Governor::new();
    for _ in 0..9 {
        g.permit("m", secs(1));
    }
    g.permit("n", secs(1));
    g.exhausted("m", secs(1));
    g.exhausted("n", secs(1));
    assert_eq!(g.gauges("m"), (4, 9));
    // Half of one is one.
    assert_eq!(g.gauges("n"), (1, 1));
    assert_eq!(g.gauges("calm"), (0, 0));
}

#[test]
fn a_model_drains_before_it_is_asked_again() {
    let mut g = Governor::new();
    g.permit("m", secs(10));
    g.exhausted("m", secs(10));
    g.release("m");
    assert_eq!(g.permit("m", secs(11)), Permit::Hold(Duration::from_secs(1)));
    assert_eq!(g.permit("m", secs(12)), Permit::Granted);
    // Full now.
    assert_eq!(g.permit("m", secs(12)), Permit::Hold(Duration::from_millis(500)));
    g.release("m");
    assert_eq!(g.permit("m", secs(12)), Permit::Granted);
    assert_eq!(g.gauges("m"), (1, 1));
}

#[test]
fn calm_lifts_the_limit_and_dissolves_it() {
    let mut g = Governor::new();
    g.permit("m", secs(0));
    g.exhausted("m", secs(0));
    g.permit("m", secs(59));
    assert_eq!(g.gauges("m").0, 1);
    g.permit("m", secs(60));
    assert_eq!(g.gauges("m").0, 2);
    g.permit("m", secs(239));
    assert_eq!(g.gauges("m").0, 4);
    g.permit("m", secs(240));
    assert_eq!(g.gauges("m").0, 5);
    g.permit("m", secs(1799));
    assert!(g.gauges("m").0 > 5);
    g.permit("m", secs(1800));
    assert_eq!(g.gauges("m").0, 0);
}

#[test]
fn a_hold_past_the_deadline_is_in_vain() {
    let hold = Permit::Hold(Duration::from_secs(2));
    assert!(!hold.too_late(secs(10), secs(12)));
    assert!(hold.too_late(secs(11), secs(12)));
    assert!(hold.too_late(secs(13), secs(12)));
    assert!(!Permit::Granted.too_late(secs(13), secs(12)));
}
