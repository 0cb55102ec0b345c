use kalshi_mm::book::{
    ceil_cent_fee, clamp_quotes, prune_trades, quote_edge_ok, sample_mid, to_dollars, to_md,
    trade_window_features, Book, TakerSide, TradePrint,
};
use kalshi_mm::json::Json;
use kalshi_mm::num::{parse_number, Num};

fn json(text: &str) -> Json {
    Json::from_text(text).unwrap()
}

fn nano(x: f64) -> i64 {
    (x * 1e9).round() as i64
}

fn num(x: f64) -> Num {
    Num::Finite((x * 1e9).round() as i128)
}

fn secs(x: f64) -> i64 {
    (x * 1e6).round() as i64
}

#[test]
fn best_levels_are_computed_not_positional() {
    let mut b = Book::new();
    // Ascending arrays must still yield the highest price
    b.load_snapshot(&json(
        r#"{"yes": [[0.38, 10], [0.39, 30], [0.40, 50]],
            "no": [[0.56, 5], [0.57, 20], [0.58, 40]]}"#,
    ));
    assert_eq!(b.best_bid_md(), Some(400));
    assert_eq!(b.best_ask_md(), Some(420));
    assert!(b.is_valid());
    assert_eq!(b.mid().unwrap(), nano(0.41));
    assert_eq!(b.bid_levels(2), vec![(nano(0.40), nano(50.0)), (nano(0.39), nano(30.0))]);
    assert_eq!(b.ask_levels(2), vec![(nano(0.42), nano(40.0)), (nano(0.43), nano(20.0))]);
}

#[test]
fn one_sided_snapshots_merge() {
    let mut b = Book::new();
    b.load_snapshot(&json(r#"{"yes": [[0.40, 50]]}"#));
    assert!(!b.is_valid());
    b.load_snapshot(&json(r#"{"no": [[0.58, 40]]}"#));
    assert!(b.is_valid());
    assert_eq!(b.best_bid_md(), Some(400));
}

#[test]
fn string_prices_and_fp_keys_parse() {
    let mut b = Book::new();
    b.load_snapshot(&json(
        r#"{"yes_dollars_fp": [["0.401", "12.5"]], "no_dollars_fp": [["0.58", "3"]]}"#,
    ));
    assert_eq!(b.best_bid_md(), Some(401));
    assert_eq!(b.bid_levels(1), vec![(nano(0.401), nano(12.5))]);
}

#[test]
fn delta_adds_and_removes_levels() {
    let mut b = Book::new();
    b.load_snapshot(&json(r#"{"yes": [[0.40, 5]], "no": [[0.58, 4]]}"#));
    b.apply_delta("yes", num(0.41), num(3.0));
    assert_eq!(b.best_bid_md(), Some(410));
    b.apply_delta("yes", num(0.41), num(-3.0));
    assert_eq!(b.best_bid_md(), Some(400));
    b.apply_delta("no", num(0.58), num(-4.0));
    assert!(!b.is_valid());
}

#[test]
fn no_price_above_one_dollar_is_invalid_not_panic() {
    let mut b = Book::new();
    b.load_snapshot(&json(r#"{"yes": [[0.40, 50]], "no": [[1.05, 10]]}"#));
    assert_eq!(b.best_ask_md(), Some(0));
    assert!(!b.is_valid());
    assert_eq!(b.mid(), None);
    assert_eq!(b.ask_levels(1), vec![(0, nano(10.0))]);
    // A valid level behind the bad one does not rescue the book
    let mut b2 = Book::new();
    b2.load_snapshot(&json(r#"{"yes": [[0.40, 50]], "no": [[1.05, 10], [0.58, 40]]}"#));
    assert!(!b2.is_valid());
}

#[test]
fn crossed_book_is_invalid() {
    let mut b = Book::new();
    b.load_snapshot(&json(r#"{"yes": [[0.50, 1]], "no": [[0.55, 1]]}"#));
    assert!(!b.is_valid());
}

#[test]
fn clamp_forces_passive_quotes() {
    let (bid, ask) =
        clamp_quotes(nano(0.45), nano(0.46), nano(0.40), nano(0.42), nano(0.01)).unwrap();
    assert_eq!(bid, nano(0.41));
    assert_eq!(ask, nano(0.46));
    assert_eq!(
        clamp_quotes(nano(0.41), nano(0.42), nano(0.41), nano(0.42), nano(0.01)),
        Some((nano(0.41), nano(0.42)))
    );
    assert!(clamp_quotes(nano(0.45), nano(0.38), nano(0.40), nano(0.42), nano(0.01)).is_none());
}

#[test]
fn fee_gate_matches_python_cases() {
    assert!(quote_edge_ok(nano(0.49), nano(0.52), nano(0.0175), 1, 0));
    assert!(!quote_edge_ok(nano(0.49), nano(0.52), nano(0.0175), 1, nano(0.02)));
    assert!(quote_edge_ok(nano(0.06), nano(0.09), nano(0.0175), 1, 0));
    assert!(!quote_edge_ok(nano(0.49), nano(0.51), nano(0.0175), 1, 0));
}

#[test]
fn ceil_cent_fee_values() {
    assert_eq!(ceil_cent_fee(nano(0.0175), 1, nano(0.40)), nano(0.01));
    assert_eq!(ceil_cent_fee(nano(0.07), 1, nano(0.50)), nano(0.02));
}

#[test]
fn sample_mid_training_cadence() {
    let mut hist = vec![];
    let t0 = sample_mid(&mut hist, 0, secs(100.0), nano(0.40));
    assert_eq!((t0, hist.clone()), (secs(100.0), vec![nano(0.40)]));
    // Same window: refreshed in place
    let t1 = sample_mid(&mut hist, t0, secs(130.0), nano(0.42));
    assert_eq!((t1, hist.clone()), (secs(100.0), vec![nano(0.42)]));
    // New window: appended
    let t2 = sample_mid(&mut hist, t1, secs(161.0), nano(0.44));
    assert_eq!((t2, hist.clone()), (secs(161.0), vec![nano(0.42), nano(0.44)]));
    // Bounded at 20
    let mut long = (0..25).map(|i| nano(i as f64)).collect::<Vec<_>>();
    sample_mid(&mut long, 0, secs(100.0), nano(99.0));
    assert_eq!(long.len(), 20);
    assert_eq!(*long.last().unwrap(), nano(99.0));
}

#[test]
fn trade_window_volume_and_flow() {
    let mut trades: Vec<TradePrint> = vec![
        (secs(40.0), 5, TakerSide::No),
        (secs(100.0), 10, TakerSide::No),
        (secs(101.0), 4, TakerSide::Yes),
    ];
    let (vol, flow) = trade_window_features(&mut trades, secs(105.0));
    assert_eq!(trades.len(), 2);
    assert_eq!(vol, nano(2.0 / 50.0));
    assert!((flow - nano((10.0 - 4.0) / 14.0)).abs() <= 1);
    let mut empty: Vec<TradePrint> = vec![];
    assert_eq!(trade_window_features(&mut empty, 0), (0, 0));
}

#[test]
fn prices_round_to_millidollars() {
    assert_eq!(to_md(num(0.401)), 401);
    assert_eq!(to_md(num(0.4005)), 401); // halves away from zero
    assert_eq!(to_md(num(0.4004)), 400);
    assert_eq!(to_md(num(-1.0)), 0);
    assert_eq!(to_md(Num::Infinite(false)), u32::MAX);
    assert_eq!(to_md(Num::Infinite(true)), 0);
    assert_eq!(to_md(Num::NotANumber), 0);
    assert_eq!(to_dollars(420), nano(0.42));
}

#[test]
fn malformed_rows_are_left_out() {
    let mut b = Book::new();
    b.load_snapshot(&json(
        r#"{"yes": [[0.40], "x", [0.41, 0], ["nan", 3], [0.39, "nan"], [true, 1], [0.38, 2]],
            "no": 5}"#,
    ));
    // "nan" as a price lands at zero, as a quantity it is no quantity
    assert_eq!(b.bid_levels(9), vec![(nano(0.38), nano(2.0)), (0, nano(3.0))]);
    assert_eq!(b.best_ask_md(), None);
}

#[test]
fn later_rows_replace_earlier_ones_and_fp_keys_win() {
    let mut b = Book::new();
    b.load_snapshot(&json(
        r#"{"yes_dollars": [[0.30, 1], [0.30, 7]], "yes": [[0.90, 1]], "no": [[0.5, 1]]}"#,
    ));
    assert_eq!(b.bid_levels(3), vec![(nano(0.30), nano(7.0))]);
    assert_eq!(b.spread(), Some(nano(0.20)));
}

#[test]
fn delta_that_is_no_number_removes_the_level() {
    let mut b = Book::new();
    b.load_snapshot(&json(r#"{"yes": [[0.40, 5]], "no": [[0.58, 4]]}"#));
    b.apply_delta("yes", num(0.40), Num::NotANumber);
    assert_eq!(b.best_bid_md(), None);
    // Any side but "yes" is the no side
    b.apply_delta("", num(0.60), num(1.0));
    assert_eq!(b.best_ask_md(), Some(400));
}

#[test]
fn opposite_deltas_cancel() {
    let mut b = Book::new();
    b.load_snapshot(&json(r#"{"yes": [[0.40, 5], [0.35, 2]], "no": [[0.58, 4]]}"#));
    let before = b.bid_levels(5);
    b.apply_delta("yes", num(0.35), num(1.25));
    assert_eq!(b.bid_levels(5)[1], (nano(0.35), nano(3.25)));
    b.apply_delta("yes", num(0.35), num(-1.25));
    assert_eq!(b.bid_levels(5), before);
}

#[test]
fn fees_never_undercharge_and_stop_at_the_cap() {
    // 4 contracts at 0.5 cost exactly seven cents
    assert_eq!(ceil_cent_fee(nano(0.07), 4, nano(0.50)), nano(0.07));
    assert_eq!(ceil_cent_fee(nano(0.07), 0, nano(0.50)), 0);
    assert_eq!(ceil_cent_fee(nano(0.07), 1, 0), 0);
    assert_eq!(ceil_cent_fee(nano(0.07), 1, nano(1.0)), 0);
    assert_eq!(ceil_cent_fee(i64::MAX, i64::MAX, nano(0.5)), 9_223_372_036_850_000_000);
    assert_eq!(ceil_cent_fee(i64::MAX, i64::MIN, nano(0.5)), -9_223_372_036_850_000_000);
    // 36.8 billion contracts at a rate of one, at half a dollar: below the cap
    assert_eq!(ceil_cent_fee(nano(1.0), 36_800_000_000, nano(0.5)), 9_200_000_000_000_000_000);
}

#[test]
fn prints_at_the_edge_of_the_window_stay() {
    let mut trades: Vec<TradePrint> =
        vec![(secs(39.0), 1, TakerSide::Yes), (secs(40.0), 2, TakerSide::No)];
    prune_trades(&mut trades, secs(100.0));
    assert_eq!(trades, vec![(secs(40.0), 2, TakerSide::No)]);
    // A busy minute saturates the volume
    let mut busy: Vec<TradePrint> = (0..60).map(|_| (secs(99.0), 1, TakerSide::Yes)).collect();
    assert_eq!(trade_window_features(&mut busy, secs(100.0)), (nano(1.0), nano(-1.0)));
}

#[test]
fn numerals_read_like_floats() {
    assert_eq!(parse_number("12.5"), Some(Num::Finite(12_500_000_000)));
    assert_eq!(parse_number("-.5e1"), Some(Num::Finite(-5_000_000_000)));
    assert_eq!(parse_number("1e-9"), Some(Num::Finite(1)));
    assert_eq!(parse_number("inf"), Some(Num::Infinite(false)));
    assert_eq!(parse_number("-Infinity"), Some(Num::Infinite(true)));
    assert_eq!(parse_number("NaN"), Some(Num::NotANumber));
    assert_eq!(parse_number(""), None);
    assert_eq!(parse_number("1x"), None);
    assert_eq!(parse_number("."), None);
}

#[test]
fn huge_sides_are_told_apart() {
    assert!(!quote_edge_ok(0, i64::MAX, 0, i64::MAX, i64::MAX));
    assert!(quote_edge_ok(0, i64::MAX, 0, i64::MAX, i64::MAX - 1));
    assert!(quote_edge_ok(i64::MIN, i64::MAX, 0, i64::MAX, i64::MAX));
    assert!(!quote_edge_ok(i64::MIN, i64::MAX, 0, i64::MIN, i64::MAX));
}
