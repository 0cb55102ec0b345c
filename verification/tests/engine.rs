use kalshi_mm::config::{LiveConfig, MmParams};
use kalshi_mm::engine::{
    ask_size, bid_size, check_risk_limits, exit_decision, plan_quotes, plan_quotes_with_shift,
    scale_action, spot_unwind_decision,
};
use kalshi_mm::json::Json;
use kalshi_mm::state::{TickerState, TraderState};
use kalshi_mm::table::Table;

// half spread 0.1325; on mid 0.40: bid 0.27, ask 0.53
const ACTION: [i64; 2] = [-500_000_000, 0];

fn json(text: &str) -> Json {
    Json::from_text(text).unwrap()
}

fn nano(x: f64) -> i64 {
    (x * 1e9).round() as i64
}

fn secs(x: f64) -> i64 {
    (x * 1e6).round() as i64
}

fn mm() -> MmParams {
    MmParams::default()
}

fn with_book(category: &str, book: &str) -> TickerState {
    let mut ts = TickerState::new(category);
    ts.book.load_snapshot(&json(book));
    ts
}

/// Bid 0.30, ask 0.50: wide enough to pass the fee barrier.
fn wide_ts() -> TickerState {
    with_book("KXADP", r#"{"yes": [[0.30, 50]], "no": [[0.50, 40]]}"#)
}

#[test]
fn plan_quotes_basic() {
    let mut ts = wide_ts();
    let plan = plan_quotes(ACTION, &mut ts, &mm(), 5, 0, 0, secs(100.0)).unwrap();
    assert_eq!(plan.bid_cents, 270);
    assert_eq!(plan.ask_cents, 530);
    assert!(plan.place_bid && plan.place_ask);
    assert!(plan.cancel_ids.is_empty());
    assert_eq!(plan.quoted_bid, nano(0.27));
    assert_eq!(ts.last_quote_time, secs(100.0));
}

#[test]
fn throttle_blocks_within_1s() {
    let mut ts = wide_ts();
    assert!(plan_quotes(ACTION, &mut ts, &mm(), 5, 0, 0, secs(100.0)).is_some());
    assert!(plan_quotes(ACTION, &mut ts, &mm(), 5, 0, 0, secs(100.5)).is_none());
    assert!(plan_quotes(ACTION, &mut ts, &mm(), 5, 0, 0, secs(101.1)).is_some());
}

#[test]
fn balance_backoff_blocks() {
    let mut ts = wide_ts();
    assert!(plan_quotes(ACTION, &mut ts, &mm(), 5, 0, secs(200.0), secs(100.0)).is_none());
    // The throttle's clock started all the same
    assert_eq!(ts.last_quote_time, secs(100.0));
}

#[test]
fn quote_band_blocks_extreme_mid() {
    let mut ts = with_book("X", r#"{"yes": [[0.965, 10]], "no": [[0.02, 10]]}"#);
    assert!(plan_quotes(ACTION, &mut ts, &mm(), 5, 0, 0, secs(100.0)).is_none());
}

#[test]
fn order_budget_exempts_ever_quoted() {
    let cap = mm().max_open_orders;
    let mut ts = wide_ts();
    assert!(plan_quotes(ACTION, &mut ts, &mm(), 5, cap, 0, secs(100.0)).is_none());
    let mut ts2 = wide_ts();
    ts2.ever_quoted = true;
    assert!(plan_quotes(ACTION, &mut ts2, &mm(), 5, cap, 0, secs(100.0)).is_some());
}

#[test]
fn fee_gate_blocks_narrow_spread() {
    let mut ts = with_book("X", r#"{"yes": [[0.48, 50]], "no": [[0.50, 40]]}"#);
    assert!(plan_quotes([nano(-1.0), 0], &mut ts, &mm(), 5, 0, 0, secs(100.0)).is_none());
}

#[test]
fn tick_move_keep_preserves_queue() {
    let mut ts = wide_ts();
    ts.quoted_bid = Some(nano(0.27));
    ts.quoted_ask = Some(nano(0.53));
    ts.bid_order_id = Some("b1".into());
    ts.ask_order_id = Some("a1".into());
    assert!(plan_quotes(ACTION, &mut ts, &mm(), 5, 0, 0, secs(100.0)).is_none());
}

#[test]
fn stale_orders_cancelled_on_price_move() {
    let mut ts = wide_ts();
    ts.quoted_bid = Some(nano(0.20));
    ts.quoted_ask = Some(nano(0.60));
    ts.bid_order_id = Some("b1".into());
    ts.ask_order_id = Some("a1".into());
    let plan = plan_quotes(ACTION, &mut ts, &mm(), 5, 0, 0, secs(100.0)).unwrap();
    let mut ids = plan.cancel_ids.clone();
    ids.sort();
    assert_eq!(ids, vec!["a1".to_string(), "b1".to_string()]);
}

#[test]
fn inventory_cap_blocks_one_side() {
    let mut ts = wide_ts();
    ts.position = 5;
    let plan = plan_quotes(ACTION, &mut ts, &mm(), 5, 0, 0, secs(100.0)).unwrap();
    assert!(!plan.place_bid);
    assert!(plan.place_ask);
    let mut ts2 = wide_ts();
    ts2.position = -5;
    let plan2 = plan_quotes(ACTION, &mut ts2, &mm(), 5, 0, 0, secs(100.0)).unwrap();
    assert!(plan2.place_bid && !plan2.place_ask);
}

#[test]
fn subpenny_adjustment_and_decimals() {
    let mut ts = wide_ts();
    ts.tick = nano(0.001);
    // half 0.255: bid .145 + .001, ask .655 - .001
    let plan = plan_quotes([0, 0], &mut ts, &mm(), 5, 0, 0, secs(100.0)).unwrap();
    assert_eq!(plan.bid_cents, 146);
    assert_eq!(plan.ask_cents, 654);
}

fn exit_ts(position: i64, entry: f64) -> TickerState {
    // Bid 0.40, ask 0.42: mid 0.41, spread 0.02
    let mut ts = with_book("X", r#"{"yes": [[0.40, 50]], "no": [[0.58, 40]]}"#);
    ts.position = position;
    ts.entry_price = Some(nano(entry));
    ts
}

#[test]
fn exit_stop_loss_long() {
    let ts = exit_ts(1, 0.50);
    let plan = exit_decision(&ts, secs(1000.0)).unwrap();
    assert_eq!(plan.side, "sell");
    assert_eq!(plan.size, 1);
    assert_eq!(plan.price_cents, 400);
    assert_eq!(plan.reason, "STOP-LOSS");
}

#[test]
fn exit_no_trigger_when_winning_or_within_noise() {
    assert!(exit_decision(&exit_ts(1, 0.30), secs(1000.0)).is_none());
    assert!(exit_decision(&exit_ts(1, 0.44), secs(1000.0)).is_none());
}

#[test]
fn exit_expiry_covers_short_at_ask() {
    let mut ts = exit_ts(-2, 0.45);
    ts.close_time_s = Some(secs(1000.0 + 60.0));
    let plan = exit_decision(&ts, secs(1000.0)).unwrap();
    assert_eq!(plan.side, "buy");
    assert_eq!(plan.size, 2);
    assert_eq!(plan.price_cents, 420);
    assert_eq!(plan.reason, "EXPIRY");
}

fn live() -> LiveConfig {
    LiveConfig {
        capital: nano(95.0),
        max_daily_loss: nano(5.0),
        max_position_value: nano(40.0),
        stop_loss_threshold: nano(-10.0),
        checkpoint_prefix: "x".into(),
        halt_on_consecutive_losses: 0,
        max_ladder_tail_loss: nano(5.0),
    }
}

#[test]
fn risk_limits_halt_and_block() {
    let live = live();
    let mut state = TraderState::new(0);
    assert_eq!(check_risk_limits(&state, &live, None), (true, None));
    state.daily_pnl = nano(-5.0) as i128;
    assert_eq!(check_risk_limits(&state, &live, None), (false, Some("Daily loss limit")));
    state.daily_pnl = 0;
    state.cumulative_pnl = nano(-10.0) as i128;
    assert_eq!(check_risk_limits(&state, &live, None), (false, Some("Stop loss")));
    state.cumulative_pnl = 0;
    let big = state.ticker("A", "C");
    big.position = 100;
    big.entry_price = Some(nano(0.50));
    // The position cap blocks quoting and does not halt
    assert_eq!(check_risk_limits(&state, &live, None), (false, None));
}

#[test]
fn actions_scale_to_spread_and_skew() {
    assert_eq!(scale_action([nano(-1.0), nano(-1.0)]), (nano(0.01), nano(-0.05)));
    assert_eq!(scale_action([nano(1.0), nano(1.0)]), (nano(0.50), nano(0.05)));
    assert_eq!(scale_action([nano(7.0), nano(-7.0)]), (nano(0.50), nano(-0.05)));
    // 0.1325 lies between two tenths of a cent and rounds to the even one
    assert_eq!(scale_action(ACTION), (nano(0.132), 0));
    assert_eq!(scale_action([0, nano(0.5)]), (nano(0.255), nano(0.025)));
}

#[test]
fn no_shift_is_a_plain_plan() {
    let mut a = wide_ts();
    let mut b = wide_ts();
    let plain = plan_quotes(ACTION, &mut a, &mm(), 5, 0, 0, secs(100.0)).unwrap();
    let shifted = plan_quotes_with_shift(ACTION, 0, &mut b, &mm(), 5, 0, 0, secs(100.0)).unwrap();
    assert_eq!((plain.bid_cents, plain.ask_cents), (shifted.bid_cents, shifted.ask_cents));
}

#[test]
fn a_shift_moves_both_quotes_and_never_takes() {
    for shift in [-0.10, -0.03, 0.03, 0.10] {
        let mut ts = wide_ts();
        let plan =
            plan_quotes_with_shift(ACTION, nano(shift), &mut ts, &mm(), 5, 0, 0, secs(100.0))
                .unwrap();
        assert_eq!(plan.bid_cents, 270 + (shift * 1000.0).round() as i64);
        assert!(plan.bid_cents < 500 && plan.ask_cents > 300);
    }
    // A huge shift is pulled back to the touch
    let mut ts = wide_ts();
    let plan =
        plan_quotes_with_shift(ACTION, nano(0.40), &mut ts, &mm(), 5, 0, 0, secs(100.0)).unwrap();
    assert_eq!(plan.bid_cents, 490);
}

#[test]
fn extreme_prices_carry_more_contracts() {
    let mm = mm();
    assert_eq!(bid_size(nano(0.27), &mm), 1);
    assert_eq!(bid_size(nano(0.90), &mm), 2);
    assert_eq!(ask_size(nano(0.53), &mm), 1);
    assert_eq!(ask_size(nano(0.10), &mm), 2);
}

#[test]
fn exits_need_an_entry_price_and_a_valid_book() {
    let mut ts = exit_ts(1, 0.50);
    ts.entry_price = None;
    assert!(exit_decision(&ts, secs(1000.0)).is_none());
    let mut ts = TickerState::new("X");
    ts.position = 1;
    ts.entry_price = Some(nano(0.50));
    assert!(exit_decision(&ts, secs(1000.0)).is_none());
    assert!(exit_decision(&exit_ts(0, 0.50), secs(1000.0)).is_none());
}

#[test]
fn a_wide_spread_raises_the_stop() {
    // Bid 0.30, ask 0.50: the stop needs a loss of 0.40
    let mut ts = wide_ts();
    ts.position = 1;
    ts.entry_price = Some(nano(0.79));
    assert!(exit_decision(&ts, 0).is_none());
    ts.entry_price = Some(nano(0.80));
    assert_eq!(exit_decision(&ts, 0).unwrap().reason, "STOP-LOSS");
}

#[test]
fn spot_unwinds_follow_the_side() {
    let long = exit_ts(3, 0.41);
    assert!(spot_unwind_decision(&long, nano(-0.039), nano(0.04)).is_none());
    let plan = spot_unwind_decision(&long, nano(-0.04), nano(0.04)).unwrap();
    assert_eq!((plan.side, plan.price_cents, plan.size), ("sell", 400, 3));
    assert_eq!(plan.reason, "SPOT-ADVERSE");
    let short = exit_ts(-3, 0.41);
    assert!(spot_unwind_decision(&short, nano(-0.04), nano(0.04)).is_none());
    let plan = spot_unwind_decision(&short, nano(0.05), nano(0.04)).unwrap();
    assert_eq!((plan.side, plan.price_cents, plan.size), ("buy", 420, 3));
    assert!(spot_unwind_decision(&exit_ts(0, 0.41), nano(1.0), nano(0.04)).is_none());
}

#[test]
fn markets_outside_the_active_set_do_not_count() {
    let live = live();
    let mut active: Table<()> = Table::new();
    for name in ["A", "B"] {
        active.insert(name.to_string(), ());
    }
    let state_of = |markets: &[(&str, i64)]| {
        let mut s = TraderState::new(0);
        for (name, position) in markets {
            let ts = s.ticker(name, "C");
            ts.position = *position;
            ts.entry_price = Some(nano(0.50));
        }
        s
    };
    // 0.50 each against a cap of 40: 79 contracts are below it, 80 are not
    let below = state_of(&[("A", 39), ("B", -40)]);
    let busy = state_of(&[("X", 500), ("B", -40), ("Y", -900), ("A", 39)]);
    assert_eq!(check_risk_limits(&below, &live, Some(&active)), (true, None));
    assert_eq!(check_risk_limits(&busy, &live, Some(&active)), (true, None));
    assert_eq!(check_risk_limits(&busy, &live, None), (false, None));
    let at = state_of(&[("A", 40), ("B", -40)]);
    let also = state_of(&[("B", -40), ("A", 40), ("X", 1)]);
    assert_eq!(check_risk_limits(&at, &live, Some(&active)), (false, None));
    assert_eq!(check_risk_limits(&also, &live, Some(&active)), (false, None));
    // No position halts, however large
    let huge = state_of(&[("A", i64::MAX), ("B", i64::MIN)]);
    assert_eq!(check_risk_limits(&huge, &live, Some(&active)).1, None);
}
