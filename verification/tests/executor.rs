use kalshi_mm::api::ApiError;
use kalshi_mm::config::MmParams;
use kalshi_mm::engine::{ExitPlan, QuotePlan};
use kalshi_mm::executor::{
    apply_quote_plan, ask_order, bid_order, exit_order, read_outcome, OrderRequest, SendResult,
};
use kalshi_mm::json::Json;
use kalshi_mm::state::TraderState;

/// An exchange in memory.
#[derive(Default)]
struct FakeApi {
    placed: Vec<OrderRequest>,
    canceled: Vec<String>,
    fail_insufficient: bool,
}

impl FakeApi {
    fn place(&mut self, order: OrderRequest) -> Result<Json, ApiError> {
        if self.fail_insufficient {
            return Err(ApiError("400 - Response: insufficient_balance".into()));
        }
        self.placed.push(order);
        let n = self.placed.len();
        Ok(Json::from_text(&format!(r#"{{"order_id": "o{n}"}}"#)).unwrap())
    }

    /// Cancels, places and remembers, as a caller of the library does.
    fn run(&mut self, mm: &MmParams, plan: &QuotePlan, state: &mut TraderState) {
        for id in &plan.cancel_ids {
            self.canceled.push(id.clone());
        }
        let bid = bid_order("T", plan, mm).map(|o| read_outcome(&self.place(o)));
        let ask = ask_order("T", plan, mm).map(|o| read_outcome(&self.place(o)));
        apply_quote_plan(mm, "CAT", "T", plan, bid, ask, state, 100_000_000);
    }
}

fn plan() -> QuotePlan {
    QuotePlan {
        bid_cents: 270,
        ask_cents: 530,
        place_bid: true,
        place_ask: true,
        cancel_ids: vec![],
        quoted_bid: 270_000_000,
        quoted_ask: 530_000_000,
    }
}

#[test]
fn places_both_sides_post_only() {
    let mut api = FakeApi::default();
    let mut state = TraderState::new(0);
    state.ticker("T", "CAT");
    api.run(&MmParams::default(), &plan(), &mut state);
    let ts = state.tickers.get("T").unwrap();
    assert!(ts.bid_order_id.is_some() && ts.ask_order_id.is_some());
    assert_ne!(ts.bid_order_id, ts.ask_order_id);
    assert_eq!(state.quotes_sent, 2);
    assert_eq!(ts.quoted_bid, Some(270_000_000));
    assert!(ts.ever_quoted);
    assert!(api.placed.iter().all(|p| p.post_only));
    let sides: Vec<&str> = api.placed.iter().map(|p| p.side).collect();
    assert!(sides.contains(&"buy") && sides.contains(&"sell"));
    assert!(api.placed.iter().all(|p| p.size == 1 && p.time_in_force == "good_till_canceled"));
}

#[test]
fn cancels_stale_orders_first() {
    let mut api = FakeApi::default();
    let mut state = TraderState::new(0);
    state.ticker("T", "CAT");
    let mut p = plan();
    p.cancel_ids = vec!["old1".into(), "old2".into()];
    api.run(&MmParams::default(), &p, &mut state);
    let mut canceled = api.canceled.clone();
    canceled.sort();
    assert_eq!(canceled, vec!["old1".to_string(), "old2".to_string()]);
}

#[test]
fn inventory_blocked_side_not_placed() {
    let mut api = FakeApi::default();
    let mut state = TraderState::new(0);
    state.ticker("T", "CAT");
    let mut p = plan();
    p.place_bid = false;
    api.run(&MmParams::default(), &p, &mut state);
    let ts = state.tickers.get("T").unwrap();
    assert_eq!(ts.bid_order_id, None);
    assert!(ts.ask_order_id.is_some());
    assert_eq!(state.quotes_sent, 1);
}

#[test]
fn insufficient_balance_sets_backoff() {
    let mut api = FakeApi { fail_insufficient: true, ..Default::default() };
    let mm = MmParams::default();
    let mut state = TraderState::new(0);
    state.ticker("T", "CAT");
    api.run(&mm, &plan(), &mut state);
    assert_eq!(state.balance_backoff_until, 100_000_000 + mm.balance_backoff_s);
    let ts = state.tickers.get("T").unwrap();
    assert_eq!(ts.bid_order_id, None);
    assert_eq!(ts.ask_order_id, None);
    assert_eq!(state.quotes_sent, 2); // what was tried counts
}

#[test]
fn exit_plan_sends_ioc() {
    let plan = ExitPlan { side: "sell", price_cents: 400, size: 3, reason: "STOP-LOSS" };
    let order = exit_order("T", &plan);
    assert_eq!((order.side, order.price_cents, order.size), ("sell", 400, 3));
    assert!(!order.post_only);
    assert_eq!(order.time_in_force, "immediate_or_cancel");
}

#[test]
fn outcomes_tell_a_short_balance_from_other_failures() {
    let short = Err(ApiError("x insufficient_balance y".into()));
    assert!(matches!(read_outcome(&short), SendResult::InsufficientBalance));
    let other = Err(ApiError("500".into()));
    assert!(matches!(read_outcome(&other), SendResult::Placed(None)));
    let placed = Ok(Json::from_text(r#"{"order_id": "z"}"#).unwrap());
    assert!(matches!(read_outcome(&placed), SendResult::Placed(Some(id)) if id == "z"));
    let odd = Ok(Json::from_text(r#"{"order_id": 5}"#).unwrap());
    assert!(matches!(read_outcome(&odd), SendResult::Placed(None)));
}

#[test]
fn a_market_that_was_not_there_is_made() {
    let mut api = FakeApi::default();
    let mut state = TraderState::new(0);
    api.run(&MmParams::default(), &plan(), &mut state);
    let ts = state.tickers.get("T").unwrap();
    assert_eq!((ts.category.as_str(), ts.position), ("CAT", 0));
    assert_eq!(ts.bid_order_id, Some("o1".to_string()));
}
