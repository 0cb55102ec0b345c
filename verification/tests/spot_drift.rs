//! The spot price drifts smoothly while the books lag: quotes lean with the
//! drift, an adverse move unwinds while the stop is still blind, and leaned
//! quotes never cross the touch.

use kalshi_mm::config::{MmParams, SpotParams};
use kalshi_mm::engine::{exit_decision, plan_quotes_with_shift, spot_unwind_decision};
use kalshi_mm::json::Json;
use kalshi_mm::ladder::Ladders;
use kalshi_mm::spot::SpotState;
use kalshi_mm::state::TickerState;
use kalshi_mm::table::Table;

const ACTION: [i64; 2] = [-500_000_000, 0]; // half spread 0.1325

fn nano(x: f64) -> i64 {
    (x * 1e9).round() as i64
}

fn secs(x: f64) -> i64 {
    (x * 1e6).round() as i64
}

fn tick(s: &mut SpotState, price: f64, now: f64) -> bool {
    let dt = s.since_last(secs(now)).unwrap_or(0) as f64;
    let alpha = 1.0 - (-dt / s.tau() as f64).exp();
    s.on_tick(nano(price), secs(now), nano(alpha))
}

fn ladder_fixture() -> (Ladders, Table<i64>) {
    let tickers: Vec<String> =
        ["KXBTCD-26JUL1517-T64000", "KXBTCD-26JUL1517-T64250", "KXBTCD-26JUL1517-T64500"]
            .iter()
            .map(|s| s.to_string())
            .collect();
    let mut mids = Table::new();
    mids.insert("KXBTCD-26JUL1517-T64000".to_string(), nano(0.80));
    mids.insert("KXBTCD-26JUL1517-T64250".to_string(), nano(0.50));
    mids.insert("KXBTCD-26JUL1517-T64500".to_string(), nano(0.20));
    (Ladders::build(&tickers), mids)
}

/// The shift of the middle strike, in billionths of a dollar.
fn shift_for(spot: &SpotState, ladders: &Ladders, mids: &Table<i64>, sp: &SpotParams) -> i64 {
    let dist = (spot.latest().unwrap() - spot.ema().unwrap()) as i128;
    let delta = ladders.delta_for("KXBTCD-26JUL1517-T64250", sp.delta_max, mids).unwrap();
    let shift = delta * dist / 1_000_000_000_000;
    (shift as i64).clamp(-sp.fv_shift_max, sp.fv_shift_max)
}

fn book() -> TickerState {
    let mut ts = TickerState::new("KXBTCD");
    ts.book
        .load_snapshot(&Json::from_text(r#"{"yes": [[0.40, 50]], "no": [[0.40, 50]]}"#).unwrap());
    ts
}

#[test]
fn smooth_drift_is_defended() {
    let sp = SpotParams::default();
    let mm = MmParams::default();
    let (ladders, mids) = ladder_fixture();
    let mut spot = SpotState::new(sp.fv_ema_tau_s);

    // Bid 0.40, ask 0.60, never updated: the lag to be defended against
    let mut ts = book();
    ts.position = 1;
    ts.entry_price = Some(nano(0.50));

    // A slow drift up that the trend filter does not see
    let mut t = 0.0;
    for i in 0..600 {
        t = i as f64;
        tick(&mut spot, 64_250.0 + 0.53 * t, t);
    }
    let ret60 = spot.ret(secs(60.0), secs(t)).unwrap();
    assert!(ret60.abs() < sp.gate_ret_60s as i128, "drift {ret60} should slide under the limit");

    // Quotes lean up with the drift
    let up_shift = shift_for(&spot, &ladders, &mids, &sp);
    assert!(up_shift > nano(0.02), "expected upward lean, got {up_shift}");
    let base =
        plan_quotes_with_shift(ACTION, 0, &mut book(), &mm, 5, 0, 0, secs(100.0)).unwrap();
    let leaned =
        plan_quotes_with_shift(ACTION, up_shift, &mut book(), &mm, 5, 0, 0, secs(100.0)).unwrap();
    assert!(leaned.bid_cents > base.bid_cents, "bid must lean up");
    assert!(leaned.ask_cents > base.ask_cents, "ask must lean up");
    // and never cross the stale touch
    assert!(leaned.bid_cents < 600 && leaned.ask_cents > 400);

    // A sharp slide against the long position: the book still shows the entry
    // price, so only the spot price can tell
    let peak = spot.latest().unwrap() as f64 / 1e9;
    let mut fired_at = None;
    for i in 1..=60 {
        let now = t + i as f64;
        tick(&mut spot, peak - 10.0 * i as f64, now);
        let shift = shift_for(&spot, &ladders, &mids, &sp);
        assert!(exit_decision(&ts, secs(now)).is_none(), "mid-based stop must still be blind");
        if let Some(plan) = spot_unwind_decision(&ts, shift, sp.unwind_shift) {
            assert_eq!(plan.reason, "SPOT-ADVERSE");
            assert_eq!(plan.side, "sell");
            assert_eq!(plan.price_cents, 400);
            fired_at = Some(i);
            break;
        }
    }
    let secs = fired_at.expect("SPOT-ADVERSE never fired during a $600 slide");
    assert!(secs <= 45, "unwind too slow: {secs}s");
}
