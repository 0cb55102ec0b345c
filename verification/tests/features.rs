use kalshi_mm::config::MmParams;
use kalshi_mm::features::{build_observation, realized_vol, OBS_HIGH, OBS_LOW};
use kalshi_mm::json::Json;
use kalshi_mm::state::TickerState;

const NOW_S: f64 = 1_760_000_000.0;
const NOW_MONO: f64 = 1000.0;

fn nano(x: f64) -> i64 {
    (x * 1e9).round() as i64
}

fn secs(x: f64) -> i64 {
    (x * 1e6).round() as i64
}

fn ts_with_book(yes: &str, no: &str) -> TickerState {
    let mut ts = TickerState::new("KXADP");
    ts.book.load_snapshot(&Json::from_text(&format!(r#"{{"yes": {yes}, "no": {no}}}"#)).unwrap());
    ts
}

fn mm() -> MmParams {
    MmParams::default()
}

/// The observation as a policy gets it: the hours go through the logarithm.
fn observe(ts: &mut TickerState) -> Option<[f32; 20]> {
    let raw = build_observation(ts, &mm(), secs(NOW_S), secs(NOW_MONO))?;
    let mut out = [0f32; 20];
    for (i, x) in raw.iter().enumerate() {
        let v = *x as f64 / 1e9;
        out[i] = if i == 12 { (1.0 + v).ln() as f32 } else { v as f32 };
    }
    Some(out)
}

#[test]
fn basic_observation_values() {
    let mut ts = ts_with_book(
        "[[0.40, 50], [0.39, 30], [0.38, 10]]",
        "[[0.58, 40], [0.57, 20], [0.56, 5]]",
    );
    ts.close_time_s = Some(secs(NOW_S + 10.0 * 3600.0));
    let obs = observe(&mut ts).unwrap();
    assert!((obs[0] - 0.41).abs() < 1e-6);
    assert!((obs[1] - 0.02).abs() < 1e-6);
    assert_eq!(obs[2], 0.50);
    assert_eq!(obs[3], 0.40);
    assert_eq!(obs[4], 0.30);
    assert_eq!(obs[5], 0.20);
    assert_eq!(obs[6], 0.10);
    assert_eq!(obs[7], 0.05);
    assert!((obs[8] - (90.0 - 65.0) / 155.0).abs() < 1e-6);
    assert_eq!(obs[9], 0.0);
    assert_eq!(obs[10], 0.0);
    assert!((obs[12] - (11.0f32).ln()).abs() < 1e-6);
    assert_eq!(obs[19], 0.0);
    assert_eq!(ts.mid_history.len(), 1);
}

#[test]
fn wide_spread_returns_none() {
    let mut ts = ts_with_book("[[0.10, 10]]", "[[0.30, 10]]");
    assert!(observe(&mut ts).is_none());
}

#[test]
fn vol_filter_returns_none() {
    let mut ts = ts_with_book("[[0.40, 50]]", "[[0.58, 40]]");
    ts.mid_history = [nano(0.30), nano(0.50)].repeat(10);
    ts.last_mid_sample = secs(NOW_MONO);
    assert!(observe(&mut ts).is_none());
}

#[test]
fn tte_capped_at_24h_and_default() {
    let mut ts = ts_with_book("[[0.40, 50]]", "[[0.58, 40]]");
    ts.close_time_s = Some(secs(NOW_S + 100.0 * 3600.0));
    let obs = observe(&mut ts).unwrap();
    assert!((obs[12] - (25.0f32).ln()).abs() < 1e-6);
    let mut ts2 = ts_with_book("[[0.40, 50]]", "[[0.58, 40]]");
    let obs2 = observe(&mut ts2).unwrap();
    assert_eq!(obs[12], obs2[12]);
}

#[test]
fn depth_defaults_when_levels_missing() {
    let mut ts = ts_with_book("[[0.40, 50]]", "[[0.58, 40]]");
    let obs = observe(&mut ts).unwrap();
    assert_eq!(obs[4], 0.05);
    assert_eq!(obs[6], 0.02);
    assert_eq!(obs[5], 0.05);
    assert_eq!(obs[7], 0.02);
}

#[test]
fn inventory_and_unrealized_norms() {
    let mut ts = ts_with_book("[[0.40, 50]]", "[[0.58, 40]]");
    ts.position = 5;
    ts.entry_price = Some(nano(0.36));
    let obs = observe(&mut ts).unwrap();
    assert!((obs[10] - 5.0 / 20.0).abs() < 1e-6);
    assert!((obs[11] - (5.0 * (0.41 - 0.36) / 10.0) as f32).abs() < 1e-6);
}

#[test]
fn momentum_and_velocity_from_history() {
    let mut ts = ts_with_book("[[0.40, 50]]", "[[0.58, 40]]");
    ts.mid_history =
        vec![nano(0.30), nano(0.32), nano(0.34), nano(0.36), nano(0.38), nano(0.40)];
    ts.last_mid_sample = secs(NOW_MONO);
    let obs = observe(&mut ts).unwrap();
    assert!((obs[13] - (0.41 - 0.32) as f32).abs() < 1e-6);
    assert!((obs[17] - ((0.41 - 0.36) / 3.0) as f32).abs() < 1e-6);
}

#[test]
fn realized_vol_matches_numpy_population_std() {
    assert_eq!(realized_vol(&vec![nano(0.5), nano(0.5)]), 0);
    let v = realized_vol(&vec![nano(0.3), nano(0.5), nano(0.3), nano(0.5)]);
    assert_eq!(v, nano(0.1));
}

#[test]
fn clip_bounds_applied_after_f32_cast() {
    let mut ts = ts_with_book("[[0.40, 50]]", "[[0.58, 40]]");
    ts.realized_pnl = 500_000_000_000;
    ts.fills_buy = 99;
    let obs = observe(&mut ts).unwrap();
    assert_eq!(obs[14], 1.0);
    assert_eq!(obs[15], 1.0);
    assert_eq!(obs[18], 1.0);
}

#[test]
fn volatility_rounds_down_and_looks_back_twenty() {
    // sqrt(2/9) of a billionth rounds down to nothing
    assert_eq!(realized_vol(&vec![0, 0, 1]), 0);
    // population deviation of 0.1, 0.2, 0.4: 0.12472191289...
    assert_eq!(realized_vol(&vec![nano(0.1), nano(0.2), nano(0.4)]), 124_721_912);
    let mut long = vec![nano(9.0); 5];
    long.extend(vec![nano(0.5); 20]);
    assert_eq!(realized_vol(&long), 0);
}

#[test]
fn features_stay_within_their_bounds() {
    let mut ts = ts_with_book("[[0.40, 100000]]", "[[0.58, 1]]");
    ts.position = -1_000_000;
    ts.entry_price = Some(nano(0.01));
    ts.realized_pnl = i128::MIN;
    ts.fills_sell = i64::MAX;
    ts.close_time_s = Some(0);
    let obs = build_observation(&mut ts, &mm(), secs(NOW_S), secs(NOW_MONO)).unwrap();
    for i in 0..20 {
        assert!(OBS_LOW[i] <= obs[i] && obs[i] <= OBS_HIGH[i], "feature {i}");
    }
    assert_eq!((obs[10], obs[11], obs[12], obs[14], obs[18]), (-nano(1.0), -nano(1.0), 0, -nano(1.0), -nano(1.0)));
}

#[test]
fn a_filtered_market_still_samples_its_mid() {
    let mut ts = ts_with_book("[[0.40, 50]]", "[[0.58, 40]]");
    ts.mid_history = vec![nano(0.1), nano(0.9), nano(0.1)];
    ts.recent_trades = vec![(0, 1, kalshi_mm::book::TakerSide::Yes)];
    assert!(observe(&mut ts).is_none());
    assert_eq!(ts.mid_history.len(), 4);
    assert_eq!(ts.last_mid_sample, secs(NOW_MONO));
    assert_eq!(ts.recent_trades.len(), 1); // pruned only with an observation
}

#[test]
fn volatility_looks_at_the_last_samples_only() {
    let recent: Vec<i64> = (0..20).map(|i| nano(0.40 + 0.01 * (i % 3) as f64)).collect();
    let mut long: Vec<i64> = vec![nano(0.99), nano(0.01), nano(0.99), nano(0.01)];
    long.extend(&recent);
    assert!(realized_vol(&recent) > 0);
    assert_eq!(realized_vol(&long), realized_vol(&recent));
    assert_ne!(realized_vol(&long[..20].to_vec()), realized_vol(&recent));
}
