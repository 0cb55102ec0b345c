use kalshi_mm::json::Json;
use kalshi_mm::paper::PaperClient;

fn count(reply: &Json, key: &str) -> usize {
    reply.get(key).unwrap().as_items().unwrap().len()
}

#[test]
fn orders_are_simulated_and_cancelable() {
    let mut paper = PaperClient::new();
    let resp = paper.place_limit_order("KXADP-1", "buy", 400, 1);
    let oid = resp.get_text("order_id").unwrap().to_string();
    assert!(oid.starts_with("paper_order_"));

    let resting = paper.get_orders(Some("resting"));
    assert_eq!(count(&resting, "orders"), 1);

    paper.cancel_order(&oid);
    let resting = paper.get_orders(Some("resting"));
    assert_eq!(count(&resting, "orders"), 0);
}

#[test]
fn offline_reads_are_safe_defaults() {
    let mut paper = PaperClient::new();
    assert_eq!(count(&paper.get_positions(), "positions"), 0);
    assert_eq!(count(&paper.get_fills(), "fills"), 0);
    let book = paper.get_orderbook();
    assert!(book.get("orderbook").unwrap().get("yes").unwrap().as_items().is_some());
    assert_eq!(paper.cancel_all_orders(), 0);
}

#[test]
fn records_say_what_was_ordered() {
    let mut paper = PaperClient::new();
    paper.place_limit_order("A", "buy", 405, 2);
    paper.place_limit_order("B", "sell", 600, 1);
    paper.cancel_order("paper_order_2");
    paper.cancel_order("unknown");
    let all = paper.get_orders(None);
    let orders = all.get("orders").unwrap().as_items().unwrap();
    assert_eq!(orders.len(), 2);
    assert_eq!(orders[0].get_text("market_ticker"), Some("A"));
    assert_eq!(orders[0].get_text("side"), Some("buy"));
    assert_eq!(orders[0].get_text("status"), Some("resting"));
    assert_eq!(orders[1].get_text("status"), Some("canceled"));
    match orders[0].get("price_cents").unwrap() {
        Json::Number(n) => assert_eq!(n, "40.5"),
        other => panic!("{other:?}"),
    }
    assert_eq!(paper.cancel_all_orders(), 1);
    assert_eq!(paper.cancel_all_orders(), 0);
}

#[test]
fn nothing_else_is_known_offline() {
    let paper = PaperClient::new();
    assert_eq!(count(&paper.get_markets(), "markets"), 0);
    assert!(paper.get_markets().get_text("cursor").is_none());
    assert!(paper.get_market().get("market").is_some());
    assert_eq!(count(&paper.get_settlements(), "settlements"), 0);
}

#[test]
fn orders_rest_until_they_are_canceled() {
    let resting = |paper: &PaperClient| -> Vec<String> {
        let found = paper.get_orders(Some("resting"));
        let items = found.get("orders").unwrap().as_items().unwrap();
        items.iter().map(|o| o.get_text("order_id").unwrap().to_string()).collect()
    };
    let mut paper = PaperClient::new();
    for i in 0..12 {
        paper.place_limit_order("A", "buy", 400 + i, 1);
    }
    paper.cancel_order("paper_order_1");
    paper.cancel_order("paper_order_11");
    paper.cancel_order("paper_order_99");
    let expected: Vec<String> =
        [2, 3, 4, 5, 6, 7, 8, 9, 10, 12].iter().map(|n| format!("paper_order_{n}")).collect();
    assert_eq!(resting(&paper), expected);
    assert_eq!(paper.cancel_all_orders(), 10);
    assert!(resting(&paper).is_empty());
    // An id is never used again
    paper.place_limit_order("B", "sell", 500, 2);
    paper.cancel_order("paper_order_12");
    assert_eq!(resting(&paper), ["paper_order_13"]);
}
