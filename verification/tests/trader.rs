use kalshi_mm::api::Call;
use kalshi_mm::config::Config;
use kalshi_mm::json::Json;
use kalshi_mm::replies::{diff_universe, order_reduces_position, parse_positions, startup_cancels};
use kalshi_mm::sweeps::{Discovery, FillSweep, HistorySweep};
use kalshi_mm::table::Table;
use kalshi_mm::trader::{BookStep, Trader};
use kalshi_mm::universe::{names_of, polled_book, spot_product};
use kalshi_mm::upkeep::{Backfill, Resolution, MAX_SETTLEMENT_CHECKS};

const CONFIG: &str = r#"
    [live]
    capital = 95.0
    max_daily_loss = 5.0
    max_position_value = 40.0
    stop_loss_threshold = -10.0
    halt_on_consecutive_losses = 2

    [[categories]]
    name = "KXBTCD"
    max_inventory = 3
"#;

const A: &str = "KXBTCD-26JUL2417-T62499.99";
const B: &str = "KXBTCD-26JUL2417-T62999.99";
const S: i64 = 1_000_000;

fn json(text: &str) -> Json {
    Json::from_text(text).unwrap()
}

fn nano(x: f64) -> i64 {
    (x * 1e9).round() as i64
}

fn money(x: f64) -> i128 {
    (x * 1e9).round() as i128
}

fn strings(names: &[&str]) -> Vec<String> {
    names.iter().map(|s| s.to_string()).collect()
}

/// An exchange whose list of open markets changes from call to call.
struct MockApi {
    pages: Vec<Vec<String>>,
    call: usize,
}

impl MockApi {
    fn new(pages: Vec<Vec<&str>>) -> Self {
        Self { pages: pages.iter().map(|p| strings(p)).collect(), call: 0 }
    }

    fn get_markets(&mut self, call: &Call) -> Json {
        assert_eq!(call.endpoint, "/markets");
        let i = self.call.min(self.pages.len() - 1);
        self.call += 1;
        let markets: Vec<String> =
            self.pages[i].iter().map(|t| format!(r#"{{"ticker": "{t}"}}"#)).collect();
        json(&format!(r#"{{"markets": [{}]}}"#, markets.join(", ")))
    }

    fn discover_universe(&mut self) -> Table<String> {
        let mut d = Discovery::new(strings(&["KXBTCD"]));
        while let Some(call) = d.next_call() {
            let reply = self.get_markets(&call);
            d.on_page(&reply);
        }
        d.found
    }
}

fn trader() -> Trader {
    Trader::new(Config::parse(CONFIG).unwrap(), 1_760_000_000 * S)
}

/// A trader that quotes the two markets of one ladder.
fn quoting() -> Trader {
    let mut t = trader();
    let mut api = MockApi::new(vec![vec![A, B]]);
    t.discover_markets(api.discover_universe());
    t
}

fn universe(tickers: &[&str]) -> Table<String> {
    let mut t = Table::new();
    for k in tickers {
        t.insert(k.to_string(), "KXBTCD".to_string());
    }
    t
}

#[test]
fn startup_hygiene_keeps_position_reducing_orders() {
    let order = |action: &str, side: &str| {
        json(&format!(
            r#"{{"ticker": "T", "action": "{action}", "side": "{side}", "order_id": "o"}}"#
        ))
    };
    assert!(order_reduces_position(&order("sell", "yes"), 3));
    assert!(order_reduces_position(&order("sell", "no"), 3));
    assert!(!order_reduces_position(&order("buy", "yes"), 3));
    assert!(order_reduces_position(&order("buy", "no"), -2));
    assert!(order_reduces_position(&order("buy", "yes"), -2));
    assert!(!order_reduces_position(&order("sell", "no"), -2));
    assert!(!order_reduces_position(&order("sell", "yes"), 0));
    assert!(!order_reduces_position(&json(r#"{"ticker": "T"}"#), 3));
}

#[test]
fn parse_positions_handles_v2_and_legacy() {
    let v2 = json(
        r#"{"market_positions": [
            {"ticker": "A", "position_fp": "3.00"},
            {"market_ticker": "B", "position_fp": "-2.00"}
        ]}"#,
    );
    let map = parse_positions(&v2);
    assert_eq!(map.get("A"), Some(&3));
    assert_eq!(map.get("B"), Some(&-2));
    let legacy = json(r#"{"positions": [{"ticker": "C", "position": 5}]}"#);
    assert_eq!(parse_positions(&legacy).get("C"), Some(&5));
}

#[test]
fn diff_universe_reports_added_and_removed() {
    let old = universe(&["A", "B", "C"]);
    let new = universe(&["B", "C", "D"]);
    let (mut added, mut removed) = diff_universe(&old, &new);
    added.sort();
    removed.sort();
    assert_eq!(added, vec!["D"], "D is newly open and must be picked up");
    assert_eq!(removed, vec!["A"], "A expired and must be dropped");
}

#[test]
fn diff_universe_handles_total_rollover() {
    let old = universe(&["KXBTCD-26JUL2417-T62499.99", "KXBTCD-26JUL2417-T62999.99"]);
    let new = universe(&["KXBTCD-26AUG0317-T72499.99"]);
    let (added, removed) = diff_universe(&old, &new);
    assert_eq!(added, vec!["KXBTCD-26AUG0317-T72499.99"]);
    assert_eq!(removed.len(), 2, "both expired tickers must be dropped");
}

#[test]
fn diff_universe_is_empty_when_nothing_changed() {
    let same = universe(&["A", "B"]);
    let (added, removed) = diff_universe(&same, &same);
    assert!(added.is_empty() && removed.is_empty());
}

#[test]
fn refresh_markets_recovers_from_hourly_rollover() {
    let mut api = MockApi::new(vec![
        vec!["KXBTCD-26JUL2417-T62499.99", "KXBTCD-26JUL2417-T62999.99"],
        vec!["KXBTCD-26AUG0317-T72499.99", "KXBTCD-26AUG0317-T72749.99"],
    ]);
    let mut trader = trader();

    trader.discover_markets(api.discover_universe());
    assert_eq!(trader.active_tickers.len(), 2, "boot cohort discovered");
    assert!(trader.active_tickers.contains("KXBTCD-26JUL2417-T62499.99"));

    let refresh = trader.refresh_markets(&api.discover_universe());

    assert_eq!(trader.active_tickers.len(), 2, "universe rolled, not grew");
    assert!(
        trader.active_tickers.contains("KXBTCD-26AUG0317-T72499.99"),
        "newly-opened market must be picked up"
    );
    assert!(
        !trader.active_tickers.contains("KXBTCD-26JUL2417-T62499.99"),
        "expired flat ticker must be pruned"
    );
    let (mut set, mut keys) = (names_of(&trader.active_set), names_of(&trader.active_tickers));
    set.sort();
    keys.sort();
    assert_eq!(set, keys);
    assert_eq!((refresh.added.len(), refresh.pruned.len()), (2, 2));
    assert!(trader.ladders.neighbours("KXBTCD-26AUG0317-T72499.99").is_some());
}

#[test]
fn refresh_markets_keeps_expired_ticker_that_still_holds_inventory() {
    let mut api = MockApi::new(vec![
        vec!["KXBTCD-26JUL2417-T62499.99"],
        vec!["KXBTCD-26AUG0317-T72499.99"],
    ]);
    let mut trader = trader();

    trader.discover_markets(api.discover_universe());
    trader.state.ticker("KXBTCD-26JUL2417-T62499.99", "KXBTCD").position = 5;

    trader.refresh_markets(&api.discover_universe());

    assert!(
        trader.active_tickers.contains("KXBTCD-26JUL2417-T62499.99"),
        "expired ticker with an open position must be retained"
    );
    assert!(trader.active_tickers.contains("KXBTCD-26AUG0317-T72499.99"));
}

#[test]
fn refresh_markets_keeps_universe_when_discovery_returns_nothing() {
    let mut api = MockApi::new(vec![vec!["KXBTCD-26AUG0317-T72499.99"], vec![]]);
    let mut trader = trader();

    trader.discover_markets(api.discover_universe());
    trader.refresh_markets(&api.discover_universe());

    assert_eq!(
        trader.active_tickers.len(),
        1,
        "an empty discovery must not clear the universe"
    );
}

#[test]
fn discovery_follows_cursors_and_drops_other_series() {
    let mut d = Discovery::new(strings(&["KXA", "KXB"]));
    let call = d.next_call().unwrap();
    assert!(call.params.contains(&("series_ticker".to_string(), "KXA".to_string())));
    assert!(call.params.contains(&("limit".to_string(), "200".to_string())));
    let page = json(r#"{"markets": [{"ticker": "KXA-1"}, {"ticker": "OTHER-1"}, {}], "cursor": "c1"}"#);
    assert_eq!(d.on_page(&page), 1);
    let call = d.next_call().unwrap();
    assert!(call.params.contains(&("cursor".to_string(), "c1".to_string())));
    // A failed page ends the category, not the search
    d.on_error();
    let call = d.next_call().unwrap();
    assert!(call.params.contains(&("series_ticker".to_string(), "KXB".to_string())));
    assert!(!call.params.iter().any(|(k, _)| k == "cursor"));
    d.on_page(&json(r#"{"markets": [{"ticker": "KXB-1"}], "cursor": ""}"#));
    assert!(d.next_call().is_none());
    assert_eq!(names_of(&d.found), strings(&["KXA-1", "KXB-1"]));
    assert_eq!(d.found.get("KXB-1").map(|s| s.as_str()), Some("KXB"));
}

#[test]
fn a_cursor_that_never_clears_ends_the_reading() {
    let page = json(r#"{"fills": [], "markets": [], "cursor": "again"}"#);
    let mut d = Discovery::new(strings(&["KXA"]));
    let mut n = 0;
    while d.next_call().is_some() {
        d.on_page(&page);
        n += 1;
    }
    assert_eq!(n, 50);
    let mut f = FillSweep::new(1000);
    let mut n = 0;
    while f.next_call().is_some() {
        f.on_page(&page);
        n += 1;
    }
    assert_eq!((n, f.mark(2000)), (25, 2000));
    let mut h = HistorySweep::new("T");
    let mut n = 0;
    while let Some(call) = h.next_call() {
        assert!(call.params.contains(&("ticker".to_string(), "T".to_string())));
        assert!(call.params.contains(&("min_ts".to_string(), "0".to_string())));
        h.on_page(&page);
        n += 1;
    }
    assert_eq!(n, 10);
}

#[test]
fn a_failed_sweep_keeps_its_mark() {
    let mut f = FillSweep::new(1000);
    let call = f.next_call().unwrap();
    assert!(call.params.contains(&("min_ts".to_string(), "940".to_string())));
    f.on_error();
    assert!(f.next_call().is_none());
    assert_eq!(f.mark(2000), 1000);
}

#[test]
fn startup_cancels_what_builds_positions() {
    let reply = json(
        r#"{"orders": [
            {"ticker": "A", "action": "sell", "order_id": "keep"},
            {"market_ticker": "A", "action": "buy", "order_id": "drop1"},
            {"ticker": "B", "action": "sell", "order_id": "drop2"},
            {"ticker": "B", "action": "sell"}
        ]}"#,
    );
    let positions = parse_positions(&json(r#"{"positions": [{"ticker": "A", "position": 3}]}"#));
    let (cancel, kept) = startup_cancels(&reply, &positions);
    assert_eq!(cancel, strings(&["drop1", "drop2"]));
    assert_eq!(kept, 1);
}

#[test]
fn positions_round_to_the_even_contract() {
    let p = parse_positions(&json(
        r#"{"positions": [{"ticker": "A", "position": "2.5"}, {"ticker": "B", "position": -3.5},
                          {"ticker": "C", "position": "x"}, {"position": 1}]}"#,
    ));
    assert_eq!((p.get("A"), p.get("B"), p.get("C")), (Some(&2), Some(&-4), Some(&0)));
    assert_eq!(p.len(), 3);
}

#[test]
fn market_details_set_step_and_close() {
    let mut t = quoting();
    let reply = json(
        r#"{"market": {"price_ranges": [{"step": 0.01}, {"step": "0.001"}],
                       "close_time": "2026-08-03T21:00:00Z"}}"#,
    );
    assert!(t.set_market_details(A, "KXBTCD", Some(&reply)));
    let ts = t.state.tickers.get(A).unwrap();
    assert_eq!(ts.tick, nano(0.001));
    assert_eq!(ts.close_time_s, Some(1_785_790_800 * S));
    assert!(!t.set_market_details(A, "KXBTCD", None));
    assert_eq!(t.state.tickers.get(A).unwrap().tick, nano(0.01));
    // No steps, and a close that is no date
    let reply = json(r#"{"market": {"expected_expiration_time": "soon"}}"#);
    assert!(!t.set_market_details(B, "KXBTCD", Some(&reply)));
    let ts = t.state.tickers.get(B).unwrap();
    assert_eq!((ts.tick, ts.close_time_s), (nano(0.01), None));
}

const BOOK: &str = r#"{"orderbook": {"yes": [[0.40, 50]], "no": [[0.40, 50]]}}"#;
const ACTION: [i64; 2] = [-500_000_000, 0];

#[test]
fn a_book_message_leads_to_a_plan() {
    let mut t = quoting();
    t.load_book(A, "KXBTCD", &json(BOOK));
    let change = json(r#"{"side": "yes", "price_dollars": "0.41", "delta_fp": "5"}"#);
    let step = t.on_book_update(A, &change, 1_760_000_000 * S, 100 * S);
    let (obs, shift, bid, ask) = match step {
        BookStep::Infer { obs, fv_shift, allow_bid, allow_ask } => (obs, fv_shift, allow_bid, allow_ask),
        _ => panic!("no observation"),
    };
    assert_eq!((obs[0], obs[1]), (nano(0.505), nano(0.19)));
    assert_eq!((shift, bid, ask), (0, true, true));
    let plan = t.plan_for(A, "KXBTCD", ACTION, shift, bid, ask, 100 * S).unwrap();
    assert!(plan.place_bid && plan.place_ask);
    assert!(plan.bid_cents < 600 && plan.ask_cents > 410);
    assert_eq!(t.state.tickers.get(A).unwrap().last_quote_time, 100 * S);
    // Throttled, and the book still follows
    let step = t.on_book_update(A, &polled_book(&json(BOOK)), 1_760_000_000 * S, 100 * S + S / 2);
    assert!(matches!(step, BookStep::Ignore));
    assert_eq!(t.state.tickers.get(A).unwrap().book.best_bid(), Some(nano(0.40)));
    // A market that is not quoted
    assert!(matches!(t.on_book_update("X", &change, 0, 200 * S), BookStep::Ignore));
    assert!(!t.state.tickers.contains("X"));
}

#[test]
fn limits_halt_the_trader() {
    let mut t = quoting();
    t.load_book(A, "KXBTCD", &json(BOOK));
    t.state.daily_pnl = -money(5.5);
    let step = t.on_book_update(A, &Json::Null, 0, 100 * S);
    assert!(matches!(step, BookStep::Halt(_)));
    assert!(!t.running);
    // A halted category only goes quiet
    let mut t = quoting();
    t.load_book(A, "KXBTCD", &json(BOOK));
    t.state.halted_categories.insert("KXBTCD".to_string(), ());
    assert!(matches!(t.on_book_update(A, &Json::Null, 0, 100 * S), BookStep::Ignore));
    assert!(t.running);
}

#[test]
fn a_ladder_at_its_cap_takes_no_more_of_that_risk() {
    let mut t = quoting();
    t.load_book(A, "KXBTCD", &json(BOOK));
    t.state.ticker(B, "KXBTCD").position = -10; // marked at half a dollar: 5.00 above all strikes
    assert_eq!(t.ladder_tail_gate(A), (true, false));
    t.state.ticker(B, "KXBTCD").position = 10;
    assert_eq!(t.ladder_tail_gate(A), (false, true));
    t.state.ticker(B, "KXBTCD").position = 9;
    assert_eq!(t.ladder_tail_gate(A), (true, true));
    assert_eq!(t.ladder_tail_gate("KXBTCD-26JUL2417-X"), (true, true));
}

fn fill(id: &str, action: &str, price: f64, count: i64) -> String {
    format!(
        r#"{{"trade_id": "{id}", "market_ticker": "{A}", "action": "{action}", "side": "yes",
            "yes_price_dollars": {price}, "count": {count}, "is_taker": false}}"#
    )
}

#[test]
fn fills_are_booked_once_and_losses_halt_the_category() {
    let mut t = quoting();
    let page = |fills: &[String]| json(&format!(r#"{{"fills": [{}]}}"#, fills.join(",")));
    let first = page(&[fill("1", "buy", 0.50, 2), "{}".to_string(), fill("1", "buy", 0.50, 2)]);
    let booked = t.process_fills(&first, 10 * S);
    assert_eq!(booked, vec![Some(0), None, None]);
    assert_eq!(t.state.tickers.get(A).unwrap().position, 2);
    assert_eq!(t.state.tickers.get(A).unwrap().last_fill_epoch, 10 * S);
    // Two losing closes reach the limit
    let closes = page(&[fill("2", "sell", 0.40, 1), fill("3", "sell", 0.40, 1)]);
    assert_eq!(t.process_fills(&closes, 11 * S), vec![Some(-money(0.1)), Some(-money(0.1))]);
    assert!(t.state.halted_categories.contains("KXBTCD"));
    assert_eq!(t.process_fills(&closes, 12 * S), vec![None, None]);
    // A new day lifts the halt
    assert!(!t.maybe_daily_reset((2026, 10), (2026, 10), 0));
    assert!(t.maybe_daily_reset((2026, 11), (2026, 10), 99 * S));
    assert!(!t.state.halted_categories.contains("KXBTCD"));
    assert_eq!((t.state.daily_pnl, t.state.last_reset), (0, 99 * S));
    // A fill of a market that is not quoted counts for its series
    let other = fill("4", "buy", 0.30, 1).replace(A, "KXADP-26JUL-T0");
    t.process_fill(&json(&other), 13 * S);
    assert_eq!(t.state.tickers.get("KXADP-26JUL-T0").unwrap().category, "KXADP");
}

#[test]
fn trades_are_kept_for_a_minute() {
    let mut t = quoting();
    let msg = |side: &str| json(&format!(r#"{{"count_fp": "2.9", "count": 7, "taker_side": "{side}"}}"#));
    t.on_trade(A, &msg("yes"), 100 * S);
    t.on_trade(A, &msg("neither"), 101 * S);
    t.on_trade(A, &json(r#"{"taker_side": "no"}"#), 140 * S);
    let counts: Vec<i64> =
        t.state.tickers.get(A).unwrap().recent_trades.iter().map(|p| p.1).collect();
    assert_eq!(counts, vec![2, 1]);
    t.on_trade(A, &msg("no"), 170 * S);
    assert_eq!(t.state.tickers.get(A).unwrap().recent_trades.len(), 2);
}

fn positions(list: &[(&str, i64)]) -> Json {
    let rows: Vec<String> = list
        .iter()
        .map(|(t, n)| format!(r#"{{"ticker": "{t}", "position": {n}}}"#))
        .collect();
    json(&format!(r#"{{"positions": [{}]}}"#, rows.join(",")))
}

#[test]
fn positions_are_taken_from_the_exchange() {
    let mut t = quoting();
    // Carried over a restart
    let step = t.sync_positions(&positions(&[(A, 4), ("OLD-1", 2)]), 100 * S);
    assert_eq!((step.listed, step.corrected.len(), step.vanished.len()), (2, 2, 0));
    assert!(t.state.tickers.get(A).unwrap().carried);
    assert_eq!(t.needs_backfill(), strings(&[A])); // only what is quoted
    // A fill of this moment is given time
    t.process_fill(&json(&fill("1", "buy", 0.50, 1)), 200 * S);
    let step = t.sync_positions(&positions(&[(A, 9)]), 209 * S);
    assert_eq!(t.state.tickers.get(A).unwrap().position, 5);
    assert_eq!(step.corrected, strings(&["OLD-1"])); // gone, and not quoted: zeroed at once
    let step = t.sync_positions(&positions(&[(A, 9)]), 210 * S);
    assert_eq!((step.corrected, t.state.tickers.get(A).unwrap().position), (strings(&[A]), 9));
    // Gone, and quoted: it waits for its settlement
    let step = t.sync_positions(&positions(&[]), 300 * S);
    assert_eq!(step.vanished, strings(&[A]));
    assert_eq!(t.state.tickers.get(A).unwrap().position, 9);
}

#[test]
fn vanished_positions_settle_or_are_given_up() {
    let mut t = quoting();
    for k in [A, B] {
        let ts = t.state.ticker(k, "KXBTCD");
        ts.position = 2;
        ts.entry_price = Some(nano(0.30));
    }
    let settled = json(&format!(
        r#"{{"settlements": [{{"ticker": "{A}", "market_result": "yes"}}]}}"#
    ));
    let both = strings(&[A, B, "NONE"]);
    let r = t.resolve_vanished_positions(&both, &settled);
    assert!(matches!(r[0], Resolution::Settled(Some(true), Some(x)) if x == money(1.4)));
    assert!(matches!(r[1], Resolution::Waiting(1)));
    assert!(matches!(r[2], Resolution::Flat));
    assert_eq!(t.state.wins, 1);
    assert_eq!(t.state.tickers.get(A).unwrap().position, 0);
    let only = strings(&[B]);
    for n in 2..MAX_SETTLEMENT_CHECKS {
        let r = t.resolve_vanished_positions(&only, &Json::Null);
        assert!(matches!(r[0], Resolution::Waiting(m) if m == n));
    }
    assert!(matches!(t.resolve_vanished_positions(&only, &Json::Null)[0], Resolution::GivenUp));
    let ts = t.state.tickers.get(B).unwrap();
    assert_eq!((ts.position, ts.entry_price), (0, None));
    assert!(!t.settlement_checks.contains(B));
}

fn timed(ts: i64, id: &str, action: &str, price: f64, count: i64) -> String {
    fill(id, action, price, count).replacen('{', &format!(r#"{{"ts": {ts}, "#), 1)
}

#[test]
fn entry_prices_come_back_from_the_fills() {
    let mut t = quoting();
    t.sync_positions(&positions(&[(A, 2)]), 100 * S);
    let mut h = HistorySweep::new(A);
    // Newest first, over two pages
    h.on_page(&json(&format!(
        r#"{{"fills": [{}, {}], "cursor": "n"}}"#,
        timed(30, "3", "sell", 0.70, 2),
        timed(20, "2", "buy", 0.60, 2)
    )));
    h.on_page(&json(&format!(r#"{{"fills": [{}]}}"#, timed(10, "1", "buy", 0.40, 2))));
    let ids: Vec<&str> = h.history.fills().iter().map(|f| f.fill_id.as_str()).collect();
    assert_eq!(ids, vec!["1", "2", "3"]);
    assert!(matches!(t.backfill_entry_price(A, &h.history), Backfill::Found(p) if p == nano(0.5)));
    assert_eq!(t.state.tickers.get(A).unwrap().entry_price, Some(nano(0.5)));
    assert!(t.needs_backfill().is_empty());
    // Fills that end elsewhere, and none at all
    t.state.ticker(A, "KXBTCD").position = 7;
    t.state.ticker(A, "KXBTCD").entry_price = None;
    assert!(matches!(t.backfill_entry_price(A, &h.history), Backfill::Mismatch(2)));
    let empty = HistorySweep::new(A);
    assert!(matches!(t.backfill_entry_price(A, &empty.history), Backfill::Flat));
    assert_eq!(t.state.tickers.get(A).unwrap().entry_price, None);
}

#[test]
fn losing_positions_are_exited() {
    let mut t = quoting();
    t.load_book(A, "KXBTCD", &json(r#"{"orderbook": {"yes": [[0.40, 50]], "no": [[0.58, 50]]}}"#));
    let ts = t.state.ticker(A, "KXBTCD");
    ts.position = 3;
    ts.entry_price = Some(nano(0.60));
    let exits = t.check_exits(0, 100 * S);
    assert_eq!(exits.len(), 1);
    assert_eq!((exits[0].ticker.as_str(), exits[0].category.as_str()), (A, "KXBTCD"));
    assert_eq!((exits[0].plan.side, exits[0].plan.price_cents, exits[0].plan.size), ("sell", 400, 3));
    assert_eq!(exits[0].plan.reason, "STOP-LOSS");
    // Not while an unwind may still be unbooked
    t.spot_unwind_fired_until.insert(A.to_string(), 101 * S);
    assert!(t.check_exits(0, 100 * S).is_empty());
    assert_eq!(t.check_exits(0, 101 * S).len(), 1);
}

#[test]
fn the_report_counts() {
    let mut t = quoting();
    t.process_fill(&json(&fill("1", "buy", 0.50, 1)), 0);
    let r = t.hourly_report();
    assert_eq!((r.fills, r.maker_fills, r.taker_fills, r.open_positions), (1, 1, 0, 1));
    assert!(r.gate_passed);
    t.state.quotes_sent = 3;
    t.state.taker_fills = 1;
    t.state.maker_fills = 9;
    let r = t.hourly_report();
    assert_eq!((r.taker_share, r.gate_passed), (money(0.1), false));
    assert_eq!(r.fill_rate, 333_333_333);
}

#[test]
fn one_product_is_followed() {
    let text = CONFIG.to_string()
        + "spot_feed = \"ETH-USD\"\n[[categories]]\nname = \"K2\"\nspot_feed = \"BTC-USD\"\n";
    let cfg = Config::parse(&text).unwrap();
    assert_eq!(spot_product(&cfg.categories), (Some("BTC-USD".to_string()), true));
    let plain = Config::parse(CONFIG).unwrap();
    assert_eq!(spot_product(&plain.categories), (None, false));
}

#[test]
fn a_trader_starts_with_a_clean_account() {
    let t = trader();
    let s = &t.state;
    assert_eq!((s.daily_pnl, s.cumulative_pnl, s.fees_paid), (0, 0, 0));
    assert_eq!((s.quotes_sent, s.fills, s.wins, s.losses), (0, 0, 0, 0));
    assert_eq!((s.taker_fills, s.maker_fills), (0, 0));
    assert_eq!((s.halted_categories.len(), s.consecutive_losses.len()), (0, 0));
    assert_eq!((s.balance_backoff_until, s.last_reset), (0, 1_760_000_000 * S));
    assert_eq!((s.trade_log.len(), s.seen.len(), s.tickers.len()), (0, 0, 0));
    assert_eq!((t.active_tickers.len(), t.active_set.len()), (0, 0));
    assert!(t.running && !t.spot_gate_on);
    assert_eq!(t.ladders.neighbours(A), None);
    assert_eq!(t.spot.since_last(0), None);
}
