use kalshi_mm::config::Config;
use kalshi_mm::json::Json;
use kalshi_mm::spotwatch::GateEdge;
use kalshi_mm::table::Table;
use kalshi_mm::trader::{BookStep, Trader};

const CONFIG: &str = r#"
    [live]
    capital = 95.0
    max_daily_loss = 5.0
    max_position_value = 40.0
    stop_loss_threshold = -10.0

    [[categories]]
    name = "KXBTCD"
    spot_feed = "BTC-USD"

    [[categories]]
    name = "KXADP"
"#;

const LOW: &str = "KXBTCD-26JUL1517-T64000";
const MIDDLE: &str = "KXBTCD-26JUL1517-T64250";
const HIGH: &str = "KXBTCD-26JUL1517-T64500";
const OTHER: &str = "KXADP-26JUL-T1";
const S: i64 = 1_000_000;

fn json(text: &str) -> Json {
    Json::from_text(text).unwrap()
}

fn nano(x: f64) -> i64 {
    (x * 1e9).round() as i64
}

/// A book with a bid and an ask in cents.
fn book(bid: i64, ask: i64) -> Json {
    json(&format!(
        r#"{{"yes": [["0.{bid:02}", 50]], "no": [["0.{:02}", 50]]}}"#,
        100 - ask
    ))
}

fn trader() -> Trader {
    let mut t = Trader::new(Config::parse(CONFIG).unwrap(), 0);
    let mut found: Table<String> = Table::new();
    for k in [LOW, MIDDLE, HIGH] {
        found.insert(k.to_string(), "KXBTCD".to_string());
    }
    found.insert(OTHER.to_string(), "KXADP".to_string());
    t.discover_markets(found);
    t.load_book(LOW, "KXBTCD", &book(79, 81));
    t.load_book(MIDDLE, "KXBTCD", &book(49, 51));
    t.load_book(HIGH, "KXBTCD", &book(19, 21));
    t.load_book(OTHER, "KXADP", &book(40, 60));
    t
}

/// A steady price for longer than the window, with one tick a second.
fn warm(t: &mut Trader, price: f64) {
    for i in 0..=61 {
        assert!(t.on_spot_tick(nano(price), i * S, 0));
    }
}

#[test]
fn a_feed_must_be_warm_and_alive() {
    let mut t = trader();
    assert!(t.spot_gated(0));
    assert!(matches!(t.on_book_update(MIDDLE, &Json::Null, 0, 100 * S), BookStep::Ignore));
    // Other categories do not care
    let step = t.on_book_update(OTHER, &Json::Null, 0, 100 * S);
    assert!(matches!(step, BookStep::Infer { fv_shift: 0, .. }));
    warm(&mut t, 64_250.0);
    assert!(!t.spot_gated(61 * S));
    assert!(t.spot_gated(72 * S)); // silent for eleven seconds
}

#[test]
fn closing_pulls_the_quotes_once() {
    let mut t = trader();
    warm(&mut t, 64_250.0);
    assert!(matches!(t.update_spot_gate(61 * S), GateEdge::Same));
    t.state.ticker(MIDDLE, "KXBTCD").bid_order_id = Some("b".to_string());
    t.state.ticker(MIDDLE, "KXBTCD").ask_order_id = Some("a".to_string());
    t.state.ticker(OTHER, "KXADP").bid_order_id = Some("o".to_string());
    // 0.2 percent in a minute is above the limit of 0.15
    assert!(t.on_spot_tick(nano(64_250.0 * 1.002), 62 * S, 0));
    match t.update_spot_gate(62 * S) {
        GateEdge::Closed(ids) => assert_eq!(ids, vec!["b".to_string(), "a".to_string()]),
        _ => panic!("the quotes stay"),
    }
    assert!(t.spot_gate_on);
    assert_eq!(t.state.tickers.get(MIDDLE).unwrap().bid_order_id, None);
    assert_eq!(t.state.tickers.get(OTHER).unwrap().bid_order_id, Some("o".to_string()));
    assert!(matches!(t.update_spot_gate(62 * S), GateEdge::Same));
    // 0.12 percent keeps it closed, 0.1 percent opens it
    assert!(t.on_spot_tick(nano(64_250.0 * 1.0012), 63 * S, 0));
    assert!(matches!(t.update_spot_gate(63 * S), GateEdge::Same));
    assert!(t.on_spot_tick(nano(64_250.0 * 1.001), 64 * S, 0));
    assert!(matches!(t.update_spot_gate(64 * S), GateEdge::Opened));
}

#[test]
fn the_shift_follows_the_ladder() {
    let mut t = trader();
    assert_eq!(t.fv_shift_for(MIDDLE, "KXBTCD"), None); // no tick yet
    assert_eq!(t.fv_shift_for(OTHER, "KXADP"), Some(0));
    warm(&mut t, 64_250.0);
    assert_eq!(t.fv_shift_for(MIDDLE, "KXBTCD"), Some(0));
    t.on_spot_tick(nano(64_280.0), 62 * S, 0); // the average stays
    // 0.0012 a dollar, thirty dollars
    assert_eq!(t.fv_shift_for(MIDDLE, "KXBTCD"), Some(nano(0.036)));
    // No slope, and thirty dollars could move a price: not known
    assert_eq!(t.fv_shift_for("KXBTCD-26JUL1517-B1", "KXBTCD"), None);
    t.on_spot_tick(nano(64_251.0), 63 * S, 0);
    assert_eq!(t.fv_shift_for("KXBTCD-26JUL1517-B1", "KXBTCD"), Some(0));
    // Clipped at ten cents
    t.on_spot_tick(nano(64_450.0), 64 * S, 0);
    assert_eq!(t.fv_shift_for(MIDDLE, "KXBTCD"), Some(nano(0.10)));
}

#[test]
fn adverse_moves_unwind_once() {
    let mut t = trader();
    warm(&mut t, 64_250.0);
    t.state.ticker(MIDDLE, "KXBTCD").position = 2;
    t.state.ticker(OTHER, "KXADP").position = 2;
    assert!(t.check_spot_unwind(61 * S).is_empty());
    t.on_spot_tick(nano(64_200.0), 62 * S, 0); // six cents against the position
    let exits = t.check_spot_unwind(62 * S);
    assert_eq!(exits.len(), 1);
    assert_eq!((exits[0].ticker.as_str(), exits[0].plan.side), (MIDDLE, "sell"));
    assert_eq!((exits[0].plan.price_cents, exits[0].plan.size), (490, 2));
    assert_eq!(exits[0].plan.reason, "SPOT-ADVERSE");
    // Held off for ten seconds, and by a feed that went silent
    t.on_spot_tick(nano(64_200.0), 71 * S, 0);
    assert!(t.check_spot_unwind(71 * S).is_empty());
    assert_eq!(t.check_spot_unwind(72 * S).len(), 1);
    assert!(t.check_spot_unwind(83 * S).is_empty());
}

#[test]
fn bad_prints_change_nothing() {
    let mut t = trader();
    warm(&mut t, 64_250.0);
    assert!(!t.on_spot_tick(nano(66_000.0), 62 * S, 0));
    assert_eq!(t.spot.latest(), Some(nano(64_250.0)));
}
