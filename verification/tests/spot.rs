use kalshi_mm::spot::{trend_gated, SpotState};

fn nano(x: f64) -> i64 {
    (x * 1e9).round() as i64
}

fn secs(x: f64) -> i64 {
    (x * 1e6).round() as i64
}

/// Feeds a tick, with the weight that the time since the last one gives it.
fn tick(s: &mut SpotState, price: f64, now: f64) -> bool {
    let dt = s.since_last(secs(now)).unwrap_or(0) as f64;
    let alpha = 1.0 - (-dt / s.tau() as f64).exp();
    s.on_tick(nano(price), secs(now), nano(alpha))
}

#[test]
fn ema_converges_and_lags_linear_drift() {
    let mut s = SpotState::new(secs(60.0));
    for i in 0..10 {
        assert!(tick(&mut s, 100.0, i as f64));
    }
    assert_eq!(s.ema().unwrap(), nano(100.0));
    let mut s = SpotState::new(secs(60.0));
    for i in 0..600 {
        tick(&mut s, 1000.0 + i as f64, i as f64);
    }
    let lag = (s.latest().unwrap() - s.ema().unwrap()) as f64 / 1e9;
    assert!((lag - 60.0).abs() < 3.0, "lag {lag} not ~60");
}

#[test]
fn ret_requires_full_window() {
    let mut s = SpotState::new(secs(60.0));
    tick(&mut s, 100.0, 0.0);
    tick(&mut s, 101.0, 30.0);
    assert_eq!(s.ret(secs(60.0), secs(30.0)), None);
    tick(&mut s, 102.0, 61.0);
    let r = s.ret(secs(60.0), secs(61.0)).unwrap();
    assert_eq!(r, nano(0.02) as i128);
}

#[test]
fn staleness() {
    let mut s = SpotState::new(secs(60.0));
    assert!(s.is_stale(0, secs(10.0)));
    tick(&mut s, 100.0, 100.0);
    assert!(!s.is_stale(secs(105.0), secs(10.0)));
    assert!(s.is_stale(secs(111.0), secs(10.0)));
}

#[test]
fn outlier_guard_drops_fast_jumps_but_allows_gaps() {
    let mut s = SpotState::new(secs(60.0));
    tick(&mut s, 100.0, 0.0);
    assert!(!tick(&mut s, 103.0, 1.0));
    assert_eq!(s.latest(), Some(nano(100.0)));
    assert!(tick(&mut s, 103.0, 11.0));
    assert_eq!(s.latest(), Some(nano(103.0)));
}

#[test]
fn buffer_is_pruned() {
    let mut s = SpotState::new(secs(60.0));
    for i in 0..500 {
        tick(&mut s, 100.0, i as f64);
    }
    assert!(s.len() <= 122);
}

#[test]
fn prices_that_are_none_are_dropped() {
    let mut s = SpotState::new(secs(60.0));
    assert!(!tick(&mut s, 0.0, 0.0));
    assert!(!tick(&mut s, -5.0, 0.0));
    assert_eq!((s.latest(), s.ema(), s.len()), (None, None, 0));
    assert_eq!(s.since_last(5), None);
    // A jump of exactly two percent is no outlier
    assert!(tick(&mut s, 100.0, 0.0));
    assert!(tick(&mut s, 102.0, 1.0));
}

#[test]
fn the_average_moves_by_its_weight() {
    let mut s = SpotState::new(secs(60.0));
    s.on_tick(nano(100.0), 0, 0);
    s.on_tick(nano(101.0), secs(1.0), nano(0.25));
    assert_eq!(s.ema(), Some(nano(100.25)));
    s.on_tick(nano(101.0), secs(2.0), nano(1.0));
    assert_eq!(s.ema(), Some(nano(101.0)));
    // Time that runs backwards counts as none
    assert_eq!(s.since_last(0), Some(0));
}

#[test]
fn the_trend_band_has_two_edges() {
    let trip = nano(0.0015);
    let release = nano(0.7);
    let at = |r: f64, on: bool| trend_gated(nano(r) as i128, on, trip, release);
    assert!(!at(0.0015, false));
    assert!(at(0.0016, false));
    // Between 0.00105 and 0.0015 it stays as it was
    assert!(at(0.00105, true) && !at(0.00105, false));
    assert!(at(0.0012, true) && !at(0.0012, false));
    assert!(!at(0.00104, true));
}
