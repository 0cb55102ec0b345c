use kalshi_mm::json::Json;
use kalshi_mm::state::{
    fill_fee, normalize_fill, normalize_settlement, replay_entry_price, NormalizedFill, TickerState,
    TraderState, FILL_ID_CAP, TRADE_LOG_CAP,
};
use kalshi_mm::table::Table;

const MAKER: i64 = 17_500_000;
const TAKER: i64 = 70_000_000;
const T0: &str = "KXADP-26JUL-T0";

fn json(text: &str) -> Json {
    Json::from_text(text).unwrap()
}

fn nano(x: f64) -> i64 {
    (x * 1e9).round() as i64
}

fn money(x: f64) -> i128 {
    (x * 1e9).round() as i128
}

fn fill_json(action: &str, side: &str, price: f64, count: f64, taker: bool, id: &str) -> Json {
    let price_key = if side == "yes" { "yes_price_dollars" } else { "no_price_dollars" };
    json(&format!(
        r#"{{"trade_id": "{id}", "market_ticker": "{T0}", "action": "{action}",
             "side": "{side}", "{price_key}": {price}, "count": {count}, "is_taker": {taker}}}"#
    ))
}

/// Normalize, dedupe, compute the fee at the charged rate, book.
fn apply(state: &mut TraderState, raw: &Json) -> i128 {
    let nf = normalize_fill(raw).expect("valid fill");
    if state.seen_fill(&nf.fill_id) {
        return 0;
    }
    let rate = if nf.is_taker { TAKER } else { MAKER };
    let fee = fill_fee(rate, nf.size, nf.price_yes);
    state.ticker(&nf.ticker, "KXADP");
    state.apply_fill(&nf.ticker, &nf, fee, 0)
}

fn market<'a>(s: &'a TraderState, ticker: &str) -> &'a TickerState {
    s.tickers.get(ticker).unwrap()
}

fn streak(s: &TraderState, category: &str) -> Option<u64> {
    s.consecutive_losses.get(category).copied()
}

#[test]
fn normalize_signs_by_action_reads_price_by_side() {
    let nf = normalize_fill(&fill_json("buy", "yes", 0.40, 1.0, false, "a")).unwrap();
    assert!(nf.long_yes);
    assert_eq!(nf.price_yes, nano(0.40));
    let nf = normalize_fill(&fill_json("sell", "no", 0.55, 1.0, false, "b")).unwrap();
    assert!(!nf.long_yes);
    assert_eq!(nf.price_yes, nano(0.45));
    let nf = normalize_fill(&fill_json("sell", "yes", 0.40, 1.0, false, "c")).unwrap();
    assert!(!nf.long_yes);
    assert_eq!(nf.price_yes, nano(0.40));
}

#[test]
fn position_matches_exchange_from_real_fills() {
    let mut s = TraderState::new(0);
    for (act, sd, px, n, id) in [
        ("buy", "yes", 0.70, 1.0, "r1"),
        ("buy", "yes", 0.71, 1.0, "r2"),
        ("sell", "no", 0.40, 2.0, "r3"),
        ("sell", "no", 0.45, 4.0, "r4"),
    ] {
        apply(&mut s, &fill_json(act, sd, px, n, false, id));
    }
    assert_eq!(market(&s, T0).position, -4);
}

#[test]
fn normalize_rejects_sub1_fractional() {
    let raw = json(
        r#"{"trade_id": "x", "market_ticker": "T", "action": "buy",
            "side": "yes", "yes_price_dollars": 0.5, "count_fp": "0.5"}"#,
    );
    assert!(normalize_fill(&raw).is_none());
}

#[test]
fn round_trip_books_fees_and_realized_pnl() {
    let mut s = TraderState::new(0);
    apply(&mut s, &fill_json("buy", "yes", 0.40, 1.0, false, "f1"));
    assert_eq!(market(&s, T0).position, 1);
    assert_eq!(s.daily_pnl, money(-0.01));
    let realized = apply(&mut s, &fill_json("sell", "yes", 0.45, 1.0, false, "f2"));
    assert_eq!(realized, money(0.05));
    assert_eq!(market(&s, T0).position, 0);
    assert_eq!(market(&s, T0).entry_price, None);
    assert_eq!(s.daily_pnl, money(0.03));
    assert_eq!(s.wins, 1);
    assert_eq!(market(&s, T0).realized_pnl, money(0.05));
}

#[test]
fn consecutive_losses_track_and_reset() {
    let mut s = TraderState::new(0);
    for i in 0..2 {
        apply(&mut s, &fill_json("buy", "yes", 0.50, 1.0, false, &format!("b{i}")));
        apply(&mut s, &fill_json("sell", "yes", 0.45, 1.0, false, &format!("s{i}")));
    }
    assert_eq!(streak(&s, "KXADP"), Some(2));
    apply(&mut s, &fill_json("buy", "yes", 0.50, 1.0, false, "bw"));
    apply(&mut s, &fill_json("sell", "yes", 0.60, 1.0, false, "sw"));
    assert_eq!(streak(&s, "KXADP"), Some(0));
}

#[test]
fn taker_fill_charged_at_taker_rate() {
    let mut s = TraderState::new(0);
    apply(&mut s, &fill_json("buy", "yes", 0.50, 1.0, true, "t1"));
    assert_eq!(s.daily_pnl, money(-0.02));
    assert_eq!((s.taker_fills, s.maker_fills), (1, 0));
}

#[test]
fn duplicate_fill_ids_ignored() {
    let mut s = TraderState::new(0);
    let f = fill_json("buy", "yes", 0.40, 1.0, false, "dup");
    apply(&mut s, &f);
    apply(&mut s, &f);
    assert_eq!(market(&s, T0).position, 1);
    assert_eq!(s.fills, 1);
}

#[test]
fn extend_uses_weighted_average_entry() {
    let mut s = TraderState::new(0);
    apply(&mut s, &fill_json("buy", "yes", 0.40, 1.0, false, "a"));
    apply(&mut s, &fill_json("buy", "yes", 0.50, 1.0, false, "b"));
    assert_eq!(market(&s, T0).position, 2);
    assert_eq!(market(&s, T0).entry_price, Some(nano(0.45)));
}

#[test]
fn reduce_keeps_entry_price() {
    let mut s = TraderState::new(0);
    apply(&mut s, &fill_json("buy", "yes", 0.40, 2.0, false, "a"));
    apply(&mut s, &fill_json("sell", "yes", 0.44, 1.0, false, "b"));
    assert_eq!(market(&s, T0).position, 1);
    assert_eq!(market(&s, T0).entry_price, Some(nano(0.40)));
}

#[test]
fn flip_resets_entry_to_fill_price() {
    let mut s = TraderState::new(0);
    apply(&mut s, &fill_json("buy", "yes", 0.40, 1.0, false, "a"));
    apply(&mut s, &fill_json("sell", "yes", 0.44, 2.0, false, "b"));
    assert_eq!(market(&s, T0).position, -1);
    assert_eq!(market(&s, T0).entry_price, Some(nano(0.44)));
}

#[test]
fn replay_reconstructs_weighted_average_entry_lost_by_restart() {
    let live_fills = [
        fill_json("sell", "no", 0.30, 1.0, false, "a"),
        fill_json("sell", "no", 0.32, 1.0, false, "b"),
        fill_json("sell", "no", 0.32, 1.0, false, "c"),
        fill_json("sell", "no", 0.38, 1.0, false, "d"),
    ];
    let mut live = TraderState::new(0);
    for f in &live_fills {
        apply(&mut live, f);
    }
    let live_entry = market(&live, T0).entry_price.unwrap();
    assert!((live_entry - nano(0.67)).abs() <= 1);
    let normalized: Vec<_> = live_fills.iter().map(|f| normalize_fill(f).unwrap()).collect();
    let (position, replayed_entry) = replay_entry_price(&normalized);
    assert_eq!(position, -4);
    assert_eq!(replayed_entry.unwrap(), live_entry);
}

#[test]
fn short_round_trip_realizes_gain() {
    let mut s = TraderState::new(0);
    apply(&mut s, &fill_json("sell", "yes", 0.60, 1.0, false, "a"));
    assert_eq!(market(&s, T0).entry_price, Some(nano(0.60)));
    let realized = apply(&mut s, &fill_json("buy", "yes", 0.55, 1.0, false, "b"));
    assert_eq!(realized, money(0.05));
    assert_eq!(market(&s, T0).position, 0);
}

#[test]
fn fill_releases_consumed_order_id() {
    let mut s = TraderState::new(0);
    s.ticker(T0, "KXADP").bid_order_id = Some("o-1".into());
    let raw = json(&format!(
        r#"{{"trade_id": "f", "market_ticker": "{T0}", "action": "buy", "side": "yes",
             "yes_price_dollars": 0.40, "count": 1, "is_taker": false, "order_id": "o-1"}}"#
    ));
    let nf = normalize_fill(&raw).unwrap();
    let fee = fill_fee(MAKER, nf.size, nf.price_yes);
    s.apply_fill(T0, &nf, fee, 0);
    assert_eq!(market(&s, T0).bid_order_id, None);
}

#[test]
fn dedupe_is_bounded() {
    let mut s = TraderState::new(0);
    for i in 0..25_000 {
        s.seen_fill(&format!("id-{i}"));
    }
    assert!(s.seen.len() <= FILL_ID_CAP);
    // The newest ids are remembered, the oldest are not
    assert!(s.seen_fill("id-24999"));
    assert!(!s.seen_fill("id-0"));
}

fn sett_json(ticker: &str, result: &str) -> Json {
    json(&format!(
        r#"{{"ticker": "{ticker}", "event_ticker": "KXADP-26JUL", "market_result": "{result}",
             "revenue": 100, "yes_count_fp": "1.00", "no_count_fp": "0.00",
             "yes_total_cost_dollars": "0.790000", "no_total_cost_dollars": "0.000000",
             "fee_cost": "0.018600", "settled_time": "2026-07-17T21:02:27.000000Z"}}"#
    ))
}

#[test]
fn normalize_settlement_parses_ticker_and_result() {
    let s = normalize_settlement(&sett_json(T0, "yes")).unwrap();
    assert_eq!(s.ticker, T0);
    assert_eq!(s.result_yes, Some(true));
    let s = normalize_settlement(&sett_json(T0, "no")).unwrap();
    assert_eq!(s.result_yes, Some(false));
    let s = normalize_settlement(&sett_json(T0, "void")).unwrap();
    assert_eq!(s.result_yes, None);
    assert!(normalize_settlement(&json(r#"{"market_result": "yes"}"#)).is_none());
}

#[test]
fn settlement_books_long_expiring_itm_as_win() {
    let mut s = TraderState::new(0);
    apply(&mut s, &fill_json("buy", "yes", 0.79, 1.0, false, "a"));
    let realized = s.apply_settlement(T0, Some(true));
    assert_eq!(realized.unwrap(), money(0.21));
    assert_eq!(market(&s, T0).position, 0);
    assert_eq!(market(&s, T0).entry_price, None);
    assert_eq!(market(&s, T0).realized_pnl, money(0.21));
    assert_eq!((s.wins, s.losses), (1, 0));
    assert_eq!(s.daily_pnl, money(0.20));
    assert_eq!(s.cumulative_pnl, money(0.20));
    assert_eq!(streak(&s, "KXADP"), Some(0));
}

#[test]
fn settlement_books_short_expiring_worthless_as_win() {
    let mut s = TraderState::new(0);
    for i in 0..4 {
        apply(&mut s, &fill_json("sell", "yes", 0.24, 1.0, false, &format!("s{i}")));
    }
    let realized = s.apply_settlement(T0, Some(false));
    assert_eq!(realized.unwrap(), money(0.96));
    assert_eq!(market(&s, T0).position, 0);
    assert_eq!(s.wins, 1);
}

#[test]
fn settlement_books_short_run_over_as_loss_feeding_kill_switch() {
    let mut s = TraderState::new(0);
    apply(&mut s, &fill_json("sell", "yes", 0.232, 2.0, false, "s"));
    let realized = s.apply_settlement(T0, Some(true));
    assert_eq!(realized.unwrap(), money(-1.536));
    assert_eq!((s.wins, s.losses), (0, 1));
    assert_eq!(streak(&s, "KXADP"), Some(1));
}

#[test]
fn settlement_books_nothing_when_flat_or_unknown() {
    let mut s = TraderState::new(0);
    assert_eq!(s.apply_settlement(T0, Some(true)), None);
    apply(&mut s, &fill_json("buy", "yes", 0.40, 1.0, false, "a"));
    apply(&mut s, &fill_json("sell", "yes", 0.45, 1.0, false, "b"));
    assert_eq!(s.apply_settlement(T0, Some(true)), None);
    assert_eq!((s.wins, s.losses), (1, 0));

    // The entry price is not known: cleared, and no profit booked
    let ts = s.ticker("KXADP-26JUL-T1", "KXADP");
    ts.position = 3;
    ts.entry_price = None;
    assert_eq!(s.apply_settlement("KXADP-26JUL-T1", Some(true)), None);
    assert_eq!(market(&s, "KXADP-26JUL-T1").position, 0);

    // Void: cleared, and no profit booked
    let ts = s.ticker("KXADP-26JUL-T2", "KXADP");
    ts.position = -2;
    ts.entry_price = Some(nano(0.30));
    let daily_before = s.daily_pnl;
    assert_eq!(s.apply_settlement("KXADP-26JUL-T2", None), None);
    assert_eq!(market(&s, "KXADP-26JUL-T2").position, 0);
    assert_eq!(s.daily_pnl, daily_before);
}

#[test]
fn position_value_scopes_to_active() {
    let mut s = TraderState::new(0);
    let a = s.ticker("A", "CAT");
    a.position = 2;
    a.entry_price = Some(nano(0.40));
    let b = s.ticker("B", "OLD");
    b.position = 5;
    b.entry_price = Some(nano(0.50));
    let mut active: Table<()> = Table::new();
    active.insert("A".to_string(), ());
    assert_eq!(s.position_value(Some(&active)), money(0.80));
    assert_eq!(s.position_value(None), money(3.30));
}

#[test]
fn malformed_fills_are_refused() {
    for text in [
        r#"{"action": "buy", "side": "yes", "count": 1}"#,
        r#"{"ticker": "T", "action": "hold", "side": "yes", "count": 1}"#,
        r#"{"ticker": "T", "action": "buy", "side": "maybe", "count": 1}"#,
        r#"{"ticker": "T", "action": "buy", "side": "yes", "count": 0}"#,
        r#"{"ticker": "T", "action": "buy", "side": "yes", "yes_price": "nan"}"#,
        r#"{"market_ticker": "", "ticker": "T", "action": "buy", "side": "yes"}"#,
    ] {
        assert!(normalize_fill(&json(text)).is_none(), "{text}");
    }
}

#[test]
fn fills_without_an_id_get_one_from_order_and_time() {
    let raw = json(
        r#"{"ticker": "T", "action": "sell", "side": "no", "no_price": "0.3",
            "order_id": "o9", "ts": 1753000000.5}"#,
    );
    let nf = normalize_fill(&raw).unwrap();
    assert_eq!(nf.fill_id, "o9-1753000000.5");
    assert_eq!(nf.size, 1);
    assert_eq!(nf.price_yes, nano(0.7));
    assert_eq!(nf.order_id, Some("o9".to_string()));
    assert!(!nf.is_taker);
    let bare = normalize_fill(&json(r#"{"ticker": "T", "action": "buy", "side": "yes"}"#)).unwrap();
    assert_eq!(bare.fill_id, "-0");
    assert_eq!(bare.price_yes, 0);
}

#[test]
fn contracts_round_to_the_even_count() {
    for (text, size) in [("1", 1), ("1.0", 1), ("1.5", 2), ("2.5", 2), ("3.49", 3), ("1e40", i64::MAX)] {
        let raw = json(&format!(
            r#"{{"ticker": "T", "action": "buy", "side": "yes", "count_fp": "{text}"}}"#
        ));
        assert_eq!(normalize_fill(&raw).unwrap().size, size);
    }
}

#[test]
fn less_than_one_contract_is_no_fill() {
    for text in ["0.5", "0.51", "0.6", "0.99", "0.999999999", "0", "-2", "nan", "-inf"] {
        let raw = json(&format!(
            r#"{{"ticker": "T", "action": "buy", "side": "yes", "count_fp": "{text}"}}"#
        ));
        assert!(normalize_fill(&raw).is_none(), "{text}");
    }
    let plain = json(r#"{"ticker": "T", "action": "buy", "side": "yes", "count": 0.75}"#);
    assert!(normalize_fill(&plain).is_none());
}

#[test]
fn carried_positions_do_not_feed_the_streak() {
    let mut s = TraderState::new(0);
    let ts = s.ticker(T0, "KXADP");
    ts.position = 2;
    ts.entry_price = Some(nano(0.60));
    ts.carried = true;
    apply(&mut s, &fill_json("sell", "yes", 0.50, 1.0, false, "a"));
    assert_eq!(s.losses, 1);
    assert_eq!(streak(&s, "KXADP"), None);
    assert!(market(&s, T0).carried);
    apply(&mut s, &fill_json("sell", "yes", 0.50, 1.0, false, "b"));
    assert!(!market(&s, T0).carried); // flat: what follows is this process's own
    apply(&mut s, &fill_json("buy", "yes", 0.50, 1.0, false, "c"));
    apply(&mut s, &fill_json("sell", "yes", 0.40, 1.0, false, "d"));
    assert_eq!(streak(&s, "KXADP"), Some(1));
}

#[test]
fn a_scratch_close_is_neither_win_nor_loss() {
    let mut s = TraderState::new(0);
    apply(&mut s, &fill_json("buy", "yes", 0.50, 1.0, false, "a"));
    let realized = apply(&mut s, &fill_json("sell", "yes", 0.50, 1.0, false, "b"));
    assert_eq!(realized, 0);
    assert_eq!((s.wins, s.losses), (0, 0));
    assert_eq!(s.daily_pnl, -s.fees_paid);
}

#[test]
fn settling_pays_what_closing_at_the_payout_would() {
    let mut a = TraderState::new(0);
    let mut b = TraderState::new(0);
    for s in [&mut a, &mut b] {
        apply(s, &fill_json("sell", "yes", 0.30, 3.0, false, "open"));
    }
    let settled = a.apply_settlement(T0, Some(true)).unwrap();
    let closed = apply(&mut b, &fill_json("buy", "yes", 1.0, 3.0, false, "close"));
    assert_eq!(settled, closed);
    assert_eq!(a.daily_pnl, b.daily_pnl); // the fee at one dollar is zero
}

#[test]
fn rates_and_order_counts() {
    let mut s = TraderState::new(0);
    assert_eq!((s.fill_rate(), s.win_rate()), (0, 0));
    s.quotes_sent = 8;
    s.fills = 2;
    s.wins = 1;
    s.losses = 2;
    assert_eq!(s.fill_rate(), money(0.25));
    assert_eq!(s.win_rate(), 333_333_333);
    s.ticker("A", "C").bid_order_id = Some("b".into());
    let t = s.ticker("B", "C");
    t.bid_order_id = Some("b".into());
    t.ask_order_id = Some("a".into());
    assert_eq!(s.open_order_count(), 3);
}

#[test]
fn a_new_day_clears_counters_halts_and_streaks() {
    let mut s = TraderState::new(0);
    apply(&mut s, &fill_json("buy", "yes", 0.50, 1.0, false, "a"));
    apply(&mut s, &fill_json("sell", "yes", 0.45, 1.0, false, "b"));
    s.halted_categories.insert("KXADP".to_string(), ());
    s.quotes_sent = 4;
    let total = s.cumulative_pnl;
    s.reset_daily(77);
    assert_eq!((s.daily_pnl, s.quotes_sent, s.fills, s.last_reset), (0, 0, 0, 77));
    assert_eq!(s.halted_categories.len(), 0);
    assert_eq!(streak(&s, "KXADP"), None);
    assert_eq!((s.cumulative_pnl, s.losses), (total, 1));
}

#[test]
fn the_trade_log_is_bounded() {
    let mut s = TraderState::new(0);
    s.ticker("T", "C");
    for i in 0..(TRADE_LOG_CAP as i64 + 5) {
        let nf = NormalizedFill {
            fill_id: String::new(),
            ticker: "T".into(),
            long_yes: i % 2 == 0,
            price_yes: nano(0.5),
            size: 1,
            is_taker: false,
            order_id: None,
        };
        s.apply_fill("T", &nf, 0, i);
    }
    assert_eq!(s.trade_log.len(), TRADE_LOG_CAP);
    assert_eq!(s.trade_log[0].0, 5);
    assert_eq!(s.trade_log[0].2, "sell");
    assert_eq!(s.trade_log[0].3, 50_000_000_000);
}

#[test]
fn booked_profit_is_cash_and_position_at_cost() {
    let mut s = TraderState::new(0);
    let mut cash: i128 = 0;
    let mut net: i64 = 0;
    let mut gains: i128 = 0;
    let mut rounding: i128 = 0;
    let mut cost: i128 = 0;
    let steps = [
        (true, 0.10, 1),
        (true, 0.11, 2), // 0.32 / 3 does not come out even
        (true, 0.17, 4),
        (false, 0.20, 5),
        (false, 0.25, 6), // flips
        (false, 0.31, 3),
        (true, 0.19, 7), // flat
        (true, 0.40, 2),
    ];
    for (i, (long_yes, price, size)) in steps.into_iter().enumerate() {
        let action = if long_yes { "buy" } else { "sell" };
        let before = net;
        gains += apply(&mut s, &fill_json(action, "yes", price, size as f64, false, &format!("f{i}")));
        let signed = if long_yes { size } else { -size };
        cash -= signed as i128 * nano(price) as i128;
        net += signed;
        let m = market(&s, T0);
        assert_eq!(m.position, net);
        assert_eq!(m.realized_pnl, gains);
        assert_eq!(s.cumulative_pnl, gains - s.fees_paid);
        let at_cost = net as i128 * m.entry_price.unwrap_or(0) as i128;
        if before != 0 && (before > 0) == (net > 0) && net.abs() > before.abs() {
            let added = at_cost - cost - signed as i128 * nano(price) as i128;
            assert!((2 * added).abs() <= net.abs() as i128);
            rounding += added;
        }
        cost = at_cost;
        assert_eq!(gains, cash + at_cost - rounding, "{i}");
        assert_eq!(m.entry_price.is_some(), net != 0);
    }
    assert_eq!(market(&s, T0).entry_price, Some(nano(0.40)));
    // 0.106666667 for three, 0.142857143 for seven, 0.275714286 for seven short
    assert_eq!(rounding, 1 + 0 - 2);
}

#[test]
fn profit_is_exact_where_no_entry_price_is_rounded() {
    let mut s = TraderState::new(0);
    let mut gains: i128 = 0;
    let mut cash: i128 = 0;
    for (i, (long_yes, price, size)) in
        [(true, 0.10, 1), (true, 0.12, 1), (true, 0.17, 2), (false, 0.30, 3)].into_iter().enumerate()
    {
        let action = if long_yes { "buy" } else { "sell" };
        gains += apply(&mut s, &fill_json(action, "yes", price, size as f64, true, &format!("x{i}")));
        cash += (if long_yes { -size } else { size }) as i128 * nano(price) as i128;
        let m = market(&s, T0);
        assert_eq!(gains, cash + m.position as i128 * m.entry_price.unwrap() as i128);
    }
    assert_eq!(market(&s, T0).entry_price, Some(nano(0.14)));
    assert_eq!(gains, money(0.48));
    assert_eq!(s.cumulative_pnl, gains - s.fees_paid);
}
